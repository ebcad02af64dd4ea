# blf_asc

Reading and writing of Vector BLF and ASC logs of CAN traffic, verified with Verus.

The library in `src/` does no input or output. A reader is handed the bytes or the lines of
a log and says what it needs next; a writer is handed messages and gives the bytes or the
text to store. The program in `app/` puts files, floating-point times and JSON around it.

| module | what it holds |
| --- | --- |
| `blf` | the binary format: objects, containers, `BlfReader`, `BlfWriter` |
| `asc` | the text format: events, dates, `AscReader`, `AscWriter` |
| `message` | the frames that logs hold, and their times |
| `calendar` | dates and their count in seconds |
| `dlc` | data length codes of CAN FD |
| `bytes`, `number`, `text`, `sentence` | integers in bytes and digits, words in lines |
| `zlib` | the compressed streams in BLF containers |
| `cli` | what a command line asks for |

Times are integers in the library. A BLF message carries the start of its log in
milliseconds and its own ticks; an ASC message carries the number of seconds as its line
writes it, and the moment from which it counts. A writer is given a `Timestamp`, which
describes a double-precision number of seconds.

What is read back of what was written is stated in `blf::laws`, `blf::session`,
`asc::laws`, `asc::dates` and `asc::session`: which messages each format keeps unchanged,
what becomes of the others, and that whole logs give their messages in order; and for the
calls that make a log in `blf::history` and `asc::history`. From which moment the times of an
ASC log count is stated in `asc::counting`. How a BLF log is cut into pieces on its way to the
reader does not matter (`blf::feeding`), nor where its messages are cut into containers
(`blf::cutting`).

- `Message::channel` counts from 0. Both formats count channels from 1.
- BLF objects that are read: CAN_MESSAGE, CAN_MESSAGE2, CAN_ERROR_EXT, CAN_FD_MESSAGE,
  CAN_FD_MESSAGE_64. Others are passed over.
- The dates in an ASC log have milliseconds. A log that goes from BLF to ASC and back loses
  what is finer.
