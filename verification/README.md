# skinartplus

The logic of Skinart+, a tool that turns a 72x24 pixel artwork into 27
Minecraft skins, uploads them, and claims the player's NameMC profile, as a
library verified with Verus.

- `src/mc/`: the Minecraft Java protocol (1.19 to 1.20.1) as far as the claim
  needs it: varints, strings, packet frames with zlib compression, the
  AES/CFB8 stream cipher, the Mojang server-id digest, the login and play
  decisions of the client.
- `src/commands/`: sign-in (OAuth callback, token answers), token storage
  (AES-256-GCM under a key derived from the machine id), saved accounts, skin
  images (tiles, number glyphs, layering, face previews), NameMC scraping
  answers, release checks, templates, file names.
- `src/json.rs`, `src/text.rs`: JSON values as the library reads them, and
  text helpers.
- `tests/`: tests of the library on concrete values.
- `app/`: the program around the library: sockets, HTTP, files, the claim
  session, and the JSON shapes the interface exchanges.

Outside crates (aes, aes-gcm, sha1, sha2, rsa, rand, flate2, regex, base64,
urlencoding, qrcode, image, serde_json) are called through small trusted
wrappers whose contracts state what their documentation and source promise.
