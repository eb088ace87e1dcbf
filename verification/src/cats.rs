//! The standard top-level categories of the Newznab tree.
use vstd::prelude::*;

verus! {

/// A top-level category.
#[derive(Debug, Clone, Copy)]
pub struct Category {
    pub id: u32,
    pub name: &'static str,
}

pub const CONSOLE: u32 = 1000;

pub const MOVIES: u32 = 2000;

pub const AUDIO: u32 = 3000;

pub const PC: u32 = 4000;

pub const TV: u32 = 5000;

pub const XXX: u32 = 6000;

pub const BOOKS: u32 = 7000;

pub const OTHER: u32 = 8000;

/// The ids and names of the top-level categories, in the order of their ids.
pub open spec fn top_level() -> Seq<(u32, Seq<char>)> {
    seq![
        (CONSOLE, "Console"@),
        (MOVIES, "Movies"@),
        (AUDIO, "Audio"@),
        (PC, "PC"@),
        (TV, "TV"@),
        (XXX, "XXX"@),
        (BOOKS, "Books"@),
        (OTHER, "Other"@),
    ]
}

/// Every top-level category.
pub fn all() -> (r: Vec<Category>)
    ensures
        r@.map_values(|c: Category| (c.id, c.name@)) == top_level(),
{
    let r = vec![
        Category { id: CONSOLE, name: "Console" },
        Category { id: MOVIES, name: "Movies" },
        Category { id: AUDIO, name: "Audio" },
        Category { id: PC, name: "PC" },
        Category { id: TV, name: "TV" },
        Category { id: XXX, name: "XXX" },
        Category { id: BOOKS, name: "Books" },
        Category { id: OTHER, name: "Other" },
    ];
    assert(r@.map_values(|c: Category| (c.id, c.name@)) =~= top_level());
    r
}

/// The multiple of a thousand that `id` lies at or above.
pub open spec fn parent(id: int) -> int {
    id - id % 1000
}

/// The top-level category that a category id belongs to.
pub fn normalize(id: u32) -> (r: u32)
    ensures
        r == parent(id as int),
{
    (id / 1000) * 1000
}

/// A top-level category is its own parent, and a parent is a multiple of a thousand at
/// most 999 below the id.
pub proof fn parent_is_top_level(id: int)
    requires
        0 <= id,
    ensures
        parent(parent(id)) == parent(id),
        parent(id) % 1000 == 0,
        parent(id) <= id < parent(id) + 1000,
{
}

/// A higher id belongs to no lower top-level category.
pub proof fn parents_keep_order(a: int, b: int)
    requires
        0 <= a <= b,
    ensures
        parent(a) <= parent(b),
{
}

/// The categories at the top are the whole thousands from one to eight, in this order, each with
/// its name, and each is its own parent.
pub proof fn top_levels_are_thousands(i: int)
    requires
        0 <= i < 8,
    ensures
        top_level().len() == 8,
        top_level()[i].0 == 1000 * (i + 1),
        parent(top_level()[i].0 as int) == top_level()[i].0,
        top_level()[0].1 == "Console"@ && top_level()[1].1 == "Movies"@,
        top_level()[2].1 == "Audio"@ && top_level()[3].1 == "PC"@,
        top_level()[4].1 == "TV"@ && top_level()[5].1 == "XXX"@,
        top_level()[6].1 == "Books"@ && top_level()[7].1 == "Other"@,
{
}

/// A category belongs to the top level in whose thousand it lies.
pub proof fn categories_lie_in_thousands(k: int, rest: int)
    requires
        0 <= k,
        0 <= rest < 1000,
    ensures
        parent(1000 * k + rest) == 1000 * k,
{
}

} // verus!
