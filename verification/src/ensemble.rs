use vstd::prelude::*;

verus! {

/// Label of ensemble member `idx` ("member" when no label was given for it).
pub fn member_label(labels: &[String], idx: usize) -> (label: &str)
    ensures
        idx < labels@.len() ==> label@ == labels@[idx as int]@,
        idx >= labels@.len() ==> label@ == "member"@,
{
    if idx < labels.len() {
        labels[idx].as_str()
    } else {
        "member"
    }
}

} // verus!
