# ft_kalman

Telemetry decoding for a vehicle tracked by Kalman filters.

- `src/` is the verified library: the decoder of the datagrams of the telemetry
  stream (`udp_parser`), the frames it yields (`frame`), the vehicle's latest
  readings (`vehicle`), and what they rest on: UTF-8 recognition (`utf8_text`),
  integer and float-literal recognition (`number`) and splitting text at a byte
  or into lines (`scan`). `stream_format` writes the datagram format out and
  proves that the decoder reads it back.
- `app/` is the program around it: the UDP loop, the conversion of the decoded
  float literals to `f64`, and the Kalman filters, which compute in floating point.
