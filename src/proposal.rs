//! Action proposals that the anomaly detector hands to the policy gate. A
//! proposal only names an action; it never carries it out.
use vstd::prelude::*;
use std::collections::HashMap;

verus! {

/// A proposed action for the policy gate to evaluate.
pub struct ProposedAction {
    pub tool_name: String,
    pub capability_required: String,
    pub risk_hint: String,
    pub args: HashMap<String, String>,
}

impl ProposedAction {
    /// The read-only diagnostic proposal raised on a large deviation: tool
    /// `sys_diagnostic`, capability `sys:read`, risk `high`, no arguments.
    pub fn diagnostic() -> (r: Self)
        ensures
            r.tool_name@ == "sys_diagnostic"@,
            r.capability_required@ == "sys:read"@,
            r.risk_hint@ == "high"@,
            r.args@.len() == 0,
    {
        ProposedAction {
            tool_name: "sys_diagnostic".to_owned(),
            capability_required: "sys:read".to_owned(),
            risk_hint: "high".to_owned(),
            args: HashMap::new(),
        }
    }
}

} // verus!
