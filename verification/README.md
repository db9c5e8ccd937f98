# image_streamer

Streams process images. An image is a set of files; it travels as a number of shards, which
markers with sequence numbers put back together on the receiving side.

* `src/` is the library. It takes the decisions and is verified with Verus: reassembly of an image
  from its shards, handing files on within a memory budget, serving them to clients while the image
  is still coming in, compressing shards into objects and back, and the command line. Each function
  states what it does in its contract. The proof functions whose names begin with `law_` state what
  holds of the parts together.
* `tests/` runs the library on examples.
* `app/` is the program: sockets, pipes, threads, files and the bucket. It does what the library
  decides. It has no serializer of its own, so that capturing an image needs one to be plugged in.

The library trusts the JSON parser of `serde_json` (see `src/metadata.rs`) and the frame encoder and
decoder of `lz4_flex` (see `src/lz4.rs`); what it takes them to do is written above each wrapper.
