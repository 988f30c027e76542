# wluma

Adaptive brightness, dimming and colour temperature, driven by ambient light and screen contents.

`src/` is the library: the decisions that the program takes on numbers, text and events, written and
proved in Verus. What needs logarithms and roots stands in `app/`: the coordinates of lux readings,
how near observations are to each other, how they are weighted by distance, and the colours of
temperatures.

- `als`: what the ambient light sensors report.
- `brightness`: finding an external display and keeping its brightness within bounds.
- `frame::capturer`: which capture protocol is tried when, what follows a failure, and the state of
  each protocol, event by event.
- `gamma`: gamma ramps and how they are estimated, neutralized and applied; smooth transitions of
  dimming and temperature; the choice of a backend and of an output.
- `predictor`: what was learned and how it is stored and migrated; when to learn and when to predict;
  the monotonic surface that predictions are read from.
- `double`, `double_laws`: double precision numbers in integers, with products, quotients, sums and
  differences rounded to the nearest number, halves to the even one; and how far rounding goes.
- `text`: searching and parsing text.

Public functions whose names begin with `law_` state what holds of the library as a whole: that the
predicted surface is monotonic up to rounding and exact at consistent observations, that gains do not
compound, that transitions do not turn back, that saved data is read back as it was, that the best
matching output is chosen in whatever order the outputs appear.

Points in time are nanoseconds since an arbitrary origin. Ramps, transitions and predictions are
computed in double precision, bit for bit; a number that comes from `app/` is taken by its bits.

`app/` connects the library to sensors, displays, compositors and files. `tests/` runs the library.
