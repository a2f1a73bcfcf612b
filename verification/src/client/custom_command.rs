//! Commands that the caller adds at the top level.
use vstd::prelude::*;

use crate::text::{debug_form, debug_text, texts};

verus! {

/// A command of the caller's own, by its name. It is treated as the built-in
/// ones are: no service is looked up for it. Its arguments and its handler stay
/// with the caller.
#[derive(Debug)]
pub struct CustomCommand {
    name: String,
}

impl View for CustomCommand {
    type V = Seq<char>;

    closed spec fn view(&self) -> Seq<char> {
        self.name@
    }
}

impl CustomCommand {
    /// The command with the name.
    pub fn new(name: &str) -> (r: CustomCommand)
        ensures
            r@ == name@,
    {
        CustomCommand { name: name.to_owned() }
    }

    /// The name of the command.
    pub fn name(&self) -> (r: &str)
        ensures
            r@ == self@,
    {
        self.name.as_str()
    }

    /// The command, for logs: nothing but its name shows.
    pub fn debug_text(&self) -> (r: String)
        ensures
            r@ == "CustomCommand { name: "@ + debug_form(self@) + ", .. }"@,
    {
        let mut out: String = "CustomCommand { name: ".to_owned();
        out.append(debug_text(self.name.as_str()).as_str());
        out.append(", .. }");
        out
    }
}

/// The names of the commands, in their order.
pub open spec fn names_of(commands: Seq<CustomCommand>) -> Seq<Seq<char>> {
    Seq::new(commands.len(), |i: int| commands[i]@)
}

/// The names of the commands, in their order.
pub fn command_names(commands: &[CustomCommand]) -> (r: Vec<String>)
    ensures
        texts(r@) == names_of(commands@),
{
    let mut out: Vec<String> = Vec::new();
    let mut i: usize = 0;
    while i < commands.len()
        invariant
            i <= commands@.len(),
            out@.len() == i,
            forall|j: int| 0 <= j < i ==> (#[trigger] out@[j])@ == commands@[j]@,
        decreases commands@.len() - i,
    {
        out.push(commands[i].name().to_owned());
        i += 1;
    }
    assert(texts(out@) =~= names_of(commands@));
    out
}

} // verus!
