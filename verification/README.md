# parse_lib

Reads a CSV dataset of sales (`id,name,region,amount,active`), transforms it
and writes the result. The library in `src/` holds the logic, each function
with a contract proved by Verus (the one trusted call is `str::to_uppercase`); `app/main.rs` is the command-line program
around it (argument collection, file and console I/O, and the arithmetic on
`f64` amounts).

- `src/text.rs`: characters of a text, whitespace trimming, splitting on
  commas, decimal notation.
- `src/values.rs`: reading `u32`, `bool` and checking floating-point literals,
  each as the corresponding `from_str` of the standard library documents it.
- `src/parser.rs`: `Sale`, `parse_line`, header check.
- `src/transform.rs`: filter by region, uppercase names, active amounts, a
  stable sort by amount; laws on the sort and on the `filter` command.
- `src/writer.rs`: rendering records as CSV text; the laws that a written
  record, and a whole written text read line by line, read back unchanged.
- `src/cli.rs`: command-line parsing into a `Config`.
- `src/error.rs`: `AppError` and its messages.

Amounts are a type parameter of `Sale`: the parser yields the literal text,
sorting takes the IEEE 754 encoding (`f64::to_bits`), and the program turns
them into `f64` where it adds or displays them.
