//! How a blender combines its inputs, and the names under which clients pick a mode.
use vstd::prelude::*;

verus! {

/// How a blender combines its inputs.
#[derive(Debug, Clone, Copy, PartialEq, Eq, Structural)]
pub enum BlendMode {
    Add,
    Multiply,
    Max,
}

/// The mode that a picker name selects, if any.
pub open spec fn picked_mode(s: Seq<char>) -> Result<BlendMode, ()> {
    if s == "add"@ {
        Ok(BlendMode::Add)
    } else if s == "mult"@ {
        Ok(BlendMode::Multiply)
    } else if s == "max"@ {
        Ok(BlendMode::Max)
    } else {
        Err(())
    }
}

impl BlendMode {
    /// The name under which clients pick this mode.
    pub open spec fn picker_name(self) -> &'static str {
        match self {
            BlendMode::Add => "add",
            BlendMode::Multiply => "mult",
            BlendMode::Max => "max",
        }
    }

    /// The name under which clients pick this mode.
    pub fn to_picker(&self) -> (r: &'static str)
        ensures
            r == self.picker_name(),
    {
        match *self {
            BlendMode::Add => "add",
            BlendMode::Multiply => "mult",
            BlendMode::Max => "max",
        }
    }

    /// The mode that a picker name selects; Err if the name is unknown.
    pub fn from_picker(s: &str) -> (r: Result<Self, ()>)
        ensures
            r == picked_mode(s@),
    {
        let name = String::from_str(s);
        if name == String::from_str("add") {
            Ok(BlendMode::Add)
        } else if name == String::from_str("mult") {
            Ok(BlendMode::Multiply)
        } else if name == String::from_str("max") {
            Ok(BlendMode::Max)
        } else {
            Err(())
        }
    }
}

/// The mode's name, spelled out in lower case.
pub open spec fn spelled_out(m: BlendMode) -> Seq<char> {
    match m {
        BlendMode::Add => "add"@,
        BlendMode::Multiply => "multiply"@,
        BlendMode::Max => "max"@,
    }
}

/// Picker names abbreviate the modes they pick: a name that picks a mode is the first three or
/// more letters of that mode's name, and the name a mode is listed under abbreviates that mode.
pub proof fn law_picker_names_abbreviate_modes(m: BlendMode, name: Seq<char>)
    ensures
        picked_mode(name) == Ok::<BlendMode, ()>(m) ==> name.len() >= 3 && name.is_prefix_of(
            spelled_out(m),
        ),
        m.picker_name()@.len() >= 3 && m.picker_name()@.is_prefix_of(spelled_out(m)),
{
    reveal_strlit("add");
    reveal_strlit("mult");
    reveal_strlit("max");
    reveal_strlit("multiply");
    assert("mult"@.is_prefix_of("multiply"@)) by {
        assert("multiply"@.subrange(0, 4) =~= "mult"@);
    }
    assert("add"@.is_prefix_of("add"@)) by {
        assert("add"@.subrange(0, 3) =~= "add"@);
    }
    assert("max"@.is_prefix_of("max"@)) by {
        assert("max"@.subrange(0, 3) =~= "max"@);
    }
}

/// Picking a mode by its picker name gives that mode back.
pub proof fn law_picker_round_trip(m: BlendMode)
    ensures
        picked_mode(m.picker_name()@) == Ok::<BlendMode, ()>(m),
{
    reveal_strlit("add");
    reveal_strlit("mult");
    reveal_strlit("max");
    assert("add"@ != "mult"@) by {
        assert("add"@[1] != "mult"@[1]);
    }
    assert("add"@ != "max"@) by {
        assert("add"@[1] != "max"@[1]);
    }
    assert("mult"@ != "max"@) by {
        assert("mult"@.len() != "max"@.len());
    }
}

} // verus!
