# unispec

A small gamma-spectrum workbench: spectra are read from text files, regions
of interest get a step background and fitted Gaussian peaks, a linear energy
calibration turns channels into energies, and results are plotted or
exported to a spreadsheet.

- `src/` is the verified library (Verus):
  - `text.rs`: blank lines, space-separated words and decimal `u32` texts;
  - `spectrum.rs`: `Spectrum`, the reading of spectrum texts with its exact
    contract, and the laws of that format;
  - `data_processing.rs`: the integer side of background estimation and of
    the layout of multi-peak fit parameters.
- `app/` is the interactive shell and everything that computes in floating
  point (backgrounds, peaks, fitting with `varpro`, calibration), plotting
  with `plotly`, export with `rust_xlsxwriter`.
- `tests/` runs the library on concrete texts.
