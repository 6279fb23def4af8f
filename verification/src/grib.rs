use vstd::prelude::*;

verus! {

/// Weather provider backed by a GRIB file.  Decoding GRIB data is not implemented yet:
/// opening always succeeds and the provider holds no samples.
pub struct FileGribProvider {
    _placeholder: (),
}

impl FileGribProvider {
    /// Opens the GRIB file at `_path`; the file is not read yet, so this always succeeds.
    pub fn from_file(_path: &str) -> (r: Result<Self, String>)
        ensures
            r is Ok,
    {
        Ok(Self { _placeholder: () })
    }
}

} // verus!
