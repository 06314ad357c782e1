# Glitchwing

A cockpit for cheap WiFi-camera toy drones: wire protocol, control link, video,
heads-up display and input logic, verified with [Verus](https://github.com/verus-lang/verus).

## Layout

`src/` is the library; every function in it carries a contract that Verus proves,
except the two that call out of it (below).

| Module | What it holds |
|---|---|
| `protocol` | Control packets, checksum, trim and ramp, MJPEG reassembly |
| `net` | What the sender transmits: idle keepalive, active commands, failsafe landing |
| `avi`, `bytes` | MJPEG-in-AVI muxer; integers in byte sequences |
| `raster`, `color`, `cast` | Pictures as functions from pixel to pixel, blending, integer casts |
| `font`, `hud`, `overlay` | Drawing primitives and text in the 8x8 font |
| `display` | The flight display |
| `jpeg`, `scan`, `progressive` | Which JPEG files the decoder can be trusted with: segments, and how far the codes of baseline and progressive scans reach |
| `video` | From a JPEG to pixels, scaling, and the bytes of a screen surface |
| `settings`, `text` | Key bindings and how they are stored; numbers as text |
| `pad`, `cockpit`, `viewer` | From gamepad and keyboard to what the drone is told |
| `watchdog`, `session` | Connection state; a whole flight from cycle to cycle |
| `probe`, `capture` | Probe statistics; replay of packet captures |

Two functions leave the verified code: `font::glyph_of` calls `font8x8` for character
bitmaps, and `video::decode` calls `zune-jpeg`. Their contracts are trusted.

Times are nanoseconds. Floating-point input shaping stays outside the library, which
takes axis bytes.

`app/` is the program around it: sockets and threads, the desktop window, the Android
activity, files. `tests/` runs the library on concrete values.

## Safety

These are GPS-less, altitude-hold toy drones: a control bug means a crash or a
flyaway. **Always test with props off first.** Everything starts disarmed; arming
spins the motors.
