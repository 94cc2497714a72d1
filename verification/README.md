# caliptra-rom-patch

Packer for Caliptra MCU ROM patches (PMP trap-and-patch). Given a pre-built
replacement function, it produces a signed binary patch block: it flattens the
replacement ELF, enforces the patch ABI, scans for disallowed CSR writes and
forbidden instructions, packs the block, and signs its payload with Ed25519. It
also composes sets of blocks for one OTP partition.

- `src/` is the library, verified with Verus. Every public function states what
  it returns and when; laws that relate several functions are public proof
  functions named `law_…`.
- `tests/` runs the library.
- `app/` is the command-line program: arguments, files, the manifest's hjson
  grammar, and error chains.

What is believed without proof:

- `elf::parse_elf`: what the `goblin` ELF parser returns is determined by the
  bytes of the file, on a host with 64-bit addresses.
- `signer`: what `ed25519-dalek` returns as signature and public key is
  determined by the seed and the message; whether its `verify` accepts is
  determined by key, message and signature; and it accepts such a signature
  under such a key. Of other signatures nothing is said.
