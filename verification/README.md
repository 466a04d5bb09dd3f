# frame_gmix

The control side of an RTP audio mixer that mixes several incoming RTP
audio streams into one outgoing stream, with the logic verified in Verus.

- `src/` is the verified library: the port pool of the mixing sessions
  (`port_range_manager`), the session table (`session_manager`), the
  length-prefixed framing of the control connection over `bytes::BytesMut`
  (`codec`, with the buffer's operations in `buffer`), the outgoing message
  queue (`write_queue`), the decisions of the control loop (`handler`) and of
  a media pipeline (`pipeline`), the configuration, messages and error type.
- `app/` is the program around it: the TCP connection, the JSON wire form,
  the `tokio_util` codecs, and the GStreamer pipelines.
- `tests/` exercises the library.
