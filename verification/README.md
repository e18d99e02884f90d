# Splitstream

Splitstream gives every application a group, every group an output device, and
mixes what the groups play. This crate is its logic, verified with Verus: the
mixer and its effects, the configuration and every edit to it, profiles, the
sessions and where they belong, hotkeys, and the dispatcher that decides what
each event leads to.

- `src/` is the verified library. Contracts are stated over mathematical views
  of the types; promises that span several functions are public proof functions.
- `app/` is the program around it: files, devices, threads, the window, and
  floating-point arithmetic.
- `tests/` runs the library.

## How numbers are held

The library holds floating-point numbers by their bit patterns
(`float::Float32`, `float::Float64`) and decides on the bits what can be decided
there. Where a level has to be computed, it asks a `ramp::Arithmetic` for each
single operation, and its contracts say which operations are asked for, on what,
and in which order. Filters, Fourier transforms and sample-rate conversion come
in the same way, through `resample::Resampler`, `convolve::Transform` and
`desk::Machine`.

## What is trusted

Calls into other crates stand behind small functions whose doc comments name the
call and say what is claimed of it: the syntax tree of the configuration file
(`tree`, from `toml_edit`), the directory of the user's data (`paths`, from
`directories`), the number of a hotkey (`hotkeys`, from `global-hotkey`), and a
few functions of std (`text`, `sessions`, `paths`).
