# pgarray

Arrays of SQL values with the functions and operators that PostgreSQL has for
them, verified with Verus.

An array is stored as a record: a header of type codes and a body of values. It
is read and written as a literal such as `{1,hello,NULL}`. The library reads and
writes both forms, and has the functions on arrays (`array_append`,
`array_prepend`, `array_cat`, `array_remove`, `array_position`, slices, lengths,
`string_to_array`, `array_to_string`), the operators (`= ANY`, `@>`, `&&`,
comparison), the table `unnest`, and the functions that tell PostgreSQL clients
the time and the version.

## Layout

- `src/`: the library. Each function states what it answers in terms of
  `ValueModel`, a value with its contents as mathematical sequences. `laws.rs`
  and `roundtrip.rs` hold what is proved of several functions together.
- `tests/`: tests that run the library.
- `app/`: what a host needs around it.

## Floating-point numbers

The library holds a floating-point number by its 64 bits and decides on integers
what it is worth, how it compares and whether it is whole. The two functions that
turn numbers into decimal text and back come from the caller, in a `FloatText`.
They must write whole numbers with all their digits, and read back what they
write; `app/` has the pair that the standard
library gives.

## Texts that cannot be read

In a quoted element a backslash stands before an ASCII character. What a literal
with any other character there would be is left open: the functions that read
literals require that there is none, and `literal::text_is_defined` tells.
