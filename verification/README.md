# pst2pdf

Converts an Outlook PST archive into PDF and/or plain text, grouping the
messages into conversation threads, and exports attachments.

The decisions of the program live in a library whose behaviour is stated in
`requires`/`ensures` contracts and proved with Verus; the command-line front
end in `app/` reads the archive, lays out PDF pages and writes files.

## Layout

- `src/text.rs` – character-level helpers: trimming, searching, joining,
  decimal formatting, lexicographic order, UTF-8 lengths.
- `src/sorting.rs` – stable sorting of positions by a totally ordered key.
- `src/models.rs` – the message and conversation records.
- `src/thread_grouper.rs` – subject normalisation, reply-chain resolution
  and grouping into conversations, with the laws the grouping obeys.
- `src/pdf_writer.rs` – address cleaning, word wrapping, the text output and
  the lines of every PDF page.
- `src/timestamps.rs` – FILETIME conversion and UTC formatting.
- `src/pst_reader.rs` – property values, recipients and message records.
- `src/folders.rs` – the walk over the folder tree, each message taken once.
- `src/attachments.rs` – attachment file names, the extension filter and the
  ordered attempts for saving an attachment.
- `src/compressed.rs` – wrapped EMF pictures, gzip streams and zip archives
  holding e-mails.
- `src/eml.rs` – header texts and the readable body of an e-mail attachment.
- `src/cli.rs` – output-format rules, folder-like paths, flat ordering.
- `app/` – argument parsing, archive reading, PDF pages, file output.
- `tests/` – tests of the library.
