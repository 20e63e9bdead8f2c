# mousecam

Host software for a mouse whose optical sensor is used as a 30x30 camera.

- `src/` is the verified library:
  - `report.rs`: command reports for the mouse microcontroller, the HID
    control transfers that carry them, and the firmware upload report.
  - `huffman.rs`: canonical Huffman codes and their validation.
  - `bits.rs`, `format.rs`: the compressed frame format, stated over the bit
    stream, with the lemmas about it (frames never change as the stream
    grows; decoding inverts the difference encoding).
  - `decoder.rs`: the streaming frame decoder, proved to hand out exactly
    the frames of the stream received so far.
  - `connect.rs`: the decisions of connecting to the mouse (normal mode,
    mode switch, recovery mode) and of retrying pixel bursts.
  - `display.rs`: grey level to window pixel.
  - `table_text.rs`: the text form of a Huffman code table and its parser.
- `app/main.rs` is the program: USB I/O (rusb), threads, motion tracking with
  FFTs (fftw) and floating point, cursor output (uinput) and the window
  (minifb, image).

The program reads the sensor firmware from `ang/firmware` and the Huffman
code of the pixel differences from `ang/huffman`: decimal numbers separated
by white space; for each group of the code, in order of code length, its
code length, first codeword, last codeword, then the symbols of its
codewords in order.
