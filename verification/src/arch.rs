//! Target architectures.

use vstd::prelude::*;

use crate::lexical::{chars_of, same_text};

verus! {

/// An architecture: a large memory block, a smaller processor block, and a block for
/// magic states. Each block is named by its code; a capacity is the number of logical
/// qubits that the block has room for.
#[derive(Debug, Clone, Copy, PartialEq, Eq)]
pub struct Architecture {
    pub memory_capacity: usize,
    pub processor_capacity: usize,
    /// The code of the memory block.
    pub memory_code: &'static str,
    /// The code of the processor block.
    pub processor_code: &'static str,
    /// The code of the magic-state block.
    pub magic_code: &'static str,
}

/// The architecture has these capacities and these codes.
pub open spec fn built_of(
    a: Architecture,
    memory: (usize, Seq<char>),
    processor: (usize, Seq<char>),
    magic: Seq<char>,
) -> bool {
    &&& a.memory_capacity == memory.0
    &&& a.memory_code@ == memory.1
    &&& a.processor_capacity == processor.0
    &&& a.processor_code@ == processor.1
    &&& a.magic_code@ == magic
}

/// A memory of code `[[4350, 1224, <=20]]` beside a processor of code `[[248, 10, <=18]]`.
pub fn space_efficient_lp_20() -> (r: Architecture)
    ensures
        built_of(r, (1224, "lp3_7_20"@), (10, "bb18"@), "bb18"@),
{
    Architecture {
        memory_capacity: 1224,
        processor_capacity: 10,
        memory_code: "lp3_7_20",
        processor_code: "bb18",
        magic_code: "bb18",
    }
}

/// A memory of code `[[5278, 1480, <=24]]` beside a processor of code `[[248, 10, <=18]]`.
pub fn space_efficient_lp_24() -> (r: Architecture)
    ensures
        built_of(r, (1480, "lp3_7_24"@), (10, "bb18"@), "bb18"@),
{
    Architecture {
        memory_capacity: 1480,
        processor_capacity: 10,
        memory_code: "lp3_7_24",
        processor_code: "bb18",
        magic_code: "bb18",
    }
}

/// A memory of code `[[4350, 1224, <=20]]` beside a processor of code `[[1122, 148, <=20]]`.
pub fn balanced_lp_20() -> (r: Architecture)
    ensures
        built_of(r, (1224, "lp3_7_20"@), (148, "lp3_5_20"@), "bb18"@),
{
    Architecture {
        memory_capacity: 1224,
        processor_capacity: 148,
        memory_code: "lp3_7_20",
        processor_code: "lp3_5_20",
        magic_code: "bb18",
    }
}

/// A memory of code `[[5278, 1480, <=24]]` beside a processor of code `[[1122, 148, <=20]]`.
pub fn balanced_lp_24() -> (r: Architecture)
    ensures
        built_of(r, (1480, "lp3_7_24"@), (148, "lp3_5_20"@), "bb18"@),
{
    Architecture {
        memory_capacity: 1480,
        processor_capacity: 148,
        memory_code: "lp3_7_24",
        processor_code: "lp3_5_20",
        magic_code: "bb18",
    }
}

/// The code `[[248, 10, <=18]]` in every block.
pub fn small() -> (r: Architecture)
    ensures
        built_of(r, (10, "bb18"@), (10, "bb18"@), "bb18"@),
{
    Architecture {
        memory_capacity: 10,
        processor_capacity: 10,
        memory_code: "bb18",
        processor_code: "bb18",
        magic_code: "bb18",
    }
}

/// A large memory beside gross codes `[[144, 12, 12]]`.
pub fn lp_20_gross() -> (r: Architecture)
    ensures
        built_of(r, (12, "lp3_7_20"@), (12, "gross"@), "gross"@),
{
    Architecture {
        memory_capacity: 12,
        processor_capacity: 12,
        memory_code: "lp3_7_20",
        processor_code: "gross",
        magic_code: "gross",
    }
}

/// A large memory beside two-gross codes `[[288, 12, 18]]`.
pub fn lp_20_2gross() -> (r: Architecture)
    ensures
        built_of(r, (12, "lp3_7_20"@), (12, "two_gross"@), "two_gross"@),
{
    Architecture {
        memory_capacity: 12,
        processor_capacity: 12,
        memory_code: "lp3_7_20",
        processor_code: "two_gross",
        magic_code: "two_gross",
    }
}

/// The gross code `[[144, 12, 12]]` in every block.
pub fn gross() -> (r: Architecture)
    ensures
        built_of(r, (12, "gross"@), (12, "gross"@), "gross"@),
{
    Architecture {
        memory_capacity: 12,
        processor_capacity: 12,
        memory_code: "gross",
        processor_code: "gross",
        magic_code: "gross",
    }
}

/// The two-gross code `[[288, 12, 18]]` in every block.
pub fn two_gross() -> (r: Architecture)
    ensures
        built_of(r, (12, "two_gross"@), (12, "two_gross"@), "two_gross"@),
{
    Architecture {
        memory_capacity: 12,
        processor_capacity: 12,
        memory_code: "two_gross",
        processor_code: "two_gross",
        magic_code: "two_gross",
    }
}

/// The architecture of this name.
pub open spec fn named(name: Seq<char>, a: Architecture) -> bool {
    let large = (1224usize, "lp3_7_20"@);
    let larger = (1480usize, "lp3_7_24"@);
    let lean = (10usize, "bb18"@);
    let wide = (148usize, "lp3_5_20"@);
    let gross = (12usize, "gross"@);
    if name == "space-efficient-lp20"@ || name == "space-efficient-lp-20"@ {
        built_of(a, large, lean, "bb18"@)
    } else if name == "space-efficient-lp24"@ || name == "space-efficient-lp-24"@ {
        built_of(a, larger, lean, "bb18"@)
    } else if name == "balanced-lp20"@ || name == "balanced-lp-20"@ {
        built_of(a, large, wide, "bb18"@)
    } else if name == "balanced-lp24"@ || name == "balanced-lp-24"@ {
        built_of(a, larger, wide, "bb18"@)
    } else if name == "small"@ {
        built_of(a, lean, lean, "bb18"@)
    } else {
        name == "gross"@ && built_of(a, gross, gross, "gross"@)
    }
}

/// The name is that of a preset.
pub open spec fn is_preset(name: Seq<char>) -> bool {
    ||| name == "space-efficient-lp20"@
    ||| name == "space-efficient-lp-20"@
    ||| name == "space-efficient-lp24"@
    ||| name == "space-efficient-lp-24"@
    ||| name == "balanced-lp20"@
    ||| name == "balanced-lp-20"@
    ||| name == "balanced-lp24"@
    ||| name == "balanced-lp-24"@
    ||| name == "small"@
    ||| name == "gross"@
}

fn text_is(s: &Vec<char>, t: &str) -> (r: bool)
    ensures
        r == (s@ == t@),
{
    same_text(s, &chars_of(t))
}

impl Architecture {
    /// The preset of this name, such as `space-efficient-lp20`; the number may be set
    /// off by a hyphen.
    pub fn preset(name: &str) -> (r: Option<Architecture>)
        ensures
            match r {
                Some(a) => named(name@, a),
                None => !is_preset(name@),
            },
    {
        let n = chars_of(name);
        if text_is(&n, "space-efficient-lp20") || text_is(&n, "space-efficient-lp-20") {
            Some(space_efficient_lp_20())
        } else if text_is(&n, "space-efficient-lp24") || text_is(&n, "space-efficient-lp-24") {
            Some(space_efficient_lp_24())
        } else if text_is(&n, "balanced-lp20") || text_is(&n, "balanced-lp-20") {
            Some(balanced_lp_20())
        } else if text_is(&n, "balanced-lp24") || text_is(&n, "balanced-lp-24") {
            Some(balanced_lp_24())
        } else if text_is(&n, "small") {
            Some(small())
        } else if text_is(&n, "gross") {
            Some(gross())
        } else {
            None
        }
    }
}

} // verus!
