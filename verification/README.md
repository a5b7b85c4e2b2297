# dev_wallet

Firmware of an ESP32-C3 development wallet: a Wi-Fi access point serves a web
form, and the messages typed into it appear on a 72x40 SSD1306 OLED.

- `src/` is the verified library (Verus):
  - `web`: reading the message out of the form's query string, and the web
    server's watch on the link (`LinkMonitor`);
  - `display`: breaking a message into display lines and framing it for the
    display channel; `line_breaks` holds the direct, greedy form of the lines,
    and `bounded` the `heapless` buffers;
  - `network`: the network settings and the waits;
  - `wifi`: the access point's settings and the monitor that keeps it running.
- `app/` is the firmware around it: tasks, drivers, the HTTP server and the
  radio, which perform what the library decides.
- `tests/` runs the library on concrete inputs.
- `extras/index.html` is the page with the message form that the server sends.
