use vstd::prelude::*;

use pyo3::prelude::PyAnyMethods;
use pyo3::types::IntoPyDict;
use pyo3::types::PyDict;
use pyo3::types::PyDictMethods;
use pyo3::Python;

verus! {

/// Runs a list's transform script in the embedded Python interpreter,
/// with the split elements bound to the name `value`, and reads the same
/// name back as a string. Relies on pyo3's `Python::run_bound` and
/// `PyDict::get_item`: a script may do anything, so nothing is promised
/// of the outcome. `Err` carries the rendered Python error; `Ok(None)`
/// says the script left `value` unbound.
#[verifier::external_body]
pub(crate) fn run_list_script(script: &String, elements: &Vec<String>) -> (r: Result<
    Option<String>,
    String,
>) {
    Python::with_gil(|py| {
        let locals = [("value", elements.clone())].into_py_dict_bound(py);
        py.run_bound(script.as_str(), Some(&locals), None).map_err(|e| e.to_string())?;
        match locals.get_item("value").map_err(|e| e.to_string())? {
            None => Ok(None),
            Some(v) => v.extract::<String>().map(Some).map_err(|e| e.to_string()),
        }
    })
}

/// Runs a generator's script in the embedded Python interpreter with no
/// input bindings, and reads the name `value` back as a string. Relies on
/// pyo3's `Python::run_bound` and `PyDict::get_item`, as above: nothing
/// is promised of the outcome.
#[verifier::external_body]
pub(crate) fn run_generator_script(script: &String) -> (r: Result<Option<String>, String>) {
    Python::with_gil(|py| {
        let locals = PyDict::new_bound(py);
        py.run_bound(script.as_str(), Some(&locals), None).map_err(|e| e.to_string())?;
        match locals.get_item("value").map_err(|e| e.to_string())? {
            None => Ok(None),
            Some(v) => v.extract::<String>().map(Some).map_err(|e| e.to_string()),
        }
    })
}

} // verus!
