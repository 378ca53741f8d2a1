//! Inspection of a document for occupations.
use vstd::prelude::*;
use crate::inspect::{self, spec_findings_schema, spec_inspection_prompt, InspectionRequest};

verus! {

/// The one kind this inspection looks for.
pub const KIND: &'static str = "occupation";

/// Where the findings of this inspection are stored.
pub const ARTIFACT: &'static str = "data/occupations.json";

/// The instructions given to the model.
pub const PROMPT: &'static str = "\
Find every instance of the given identifier kinds. \
A kind names a category such as occupation, not a search term. \
Copy evidence exactly from the input. Report every match.
";

/// The request for inspecting `text` for occupations.
pub fn inspect(text: &str) -> (r: InspectionRequest)
    ensures
        r.prompt@ == spec_inspection_prompt(text@, PROMPT@, seq![KIND@]),
        r.schema@ == spec_findings_schema(seq![KIND@]),
{
    let kinds: [&str; 1] = [KIND];
    let ghost ids = inspect::str_views(kinds@);
    proof {
        assert(ids =~= seq![KIND@]);
    }
    match inspect::inspect(text, PROMPT, &kinds) {
        Ok(req) => req,
        Err(_) => {
            proof {
                assert(false);
            }
            InspectionRequest { prompt: String::new(), schema: String::new() }
        },
    }
}

} // verus!
