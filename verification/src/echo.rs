//! The echo resource: a bodyless request answered with a fixed greeting.

use vstd::prelude::*;
use crate::error::PipelineResult;

verus! {

/// The body of the echo response.
#[derive(Debug)]
pub struct EchoResponseBody {
    pub message: String,
}

impl View for EchoResponseBody {
    type V = Seq<char>;

    open spec fn view(&self) -> Seq<char> {
        self.message@
    }
}

/// The echo handler: takes no input and always greets.
pub fn get(_input: ()) -> (r: PipelineResult<EchoResponseBody>)
    ensures
        (r matches Ok(b) && b@ == "mug-bancha says hello!"@),
{
    Ok(EchoResponseBody { message: "mug-bancha says hello!".to_owned() })
}

} // verus!
