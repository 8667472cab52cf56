# encode_decode_multi_thread

Hides a text message in the lowest bits of the pixel bytes of PPM images,
spread over a directory of images, and reads it back.

- `src/` is the verified library (Verus): the bit-level encoding and decoding
  of characters and messages, the plan that assigns message ranges to images,
  the layout and name of an output image file, and the ordering of messages
  read from several images.
- `app/` holds the unverified rest: directory and file I/O, the thread pool,
  and the floating-point estimate of how many passes over the images are made.
- `tests/` runs the library on concrete values.
