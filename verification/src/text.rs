//! The text form of a chain of scopes.
//!
//! Every level is a block in braces with one line for each binding; the
//! parent's block follows the bindings and is indented by two more spaces.

use crate::std_ext::push_char;
use std::fmt::Display;
use vstd::prelude::*;
use vstd::string::*;

verus! {

/// The line of one binding.
pub open spec fn entry_text(key: Seq<char>, value: Seq<char>) -> Seq<char> {
    "  "@ + key + " = "@ + value + ",\n"@
}

/// The lines of the bindings of one level, in the order given.
pub open spec fn level_text(entries: Seq<(String, String)>) -> Seq<char>
    decreases entries.len(),
{
    if entries.len() == 0 {
        Seq::empty()
    } else {
        level_text(entries.drop_last()) + entry_text(entries.last().0@, entries.last().1@)
    }
}

/// `text` with two spaces put after each of its line breaks.
pub open spec fn indent_text(text: Seq<char>) -> Seq<char>
    decreases text.len(),
{
    if text.len() == 0 {
        Seq::empty()
    } else if text.last() == '\n' {
        indent_text(text.drop_last()).push('\n') + "  "@
    } else {
        indent_text(text.drop_last()).push(text.last())
    }
}

/// A block around the lines of one level and, where there is one, the text
/// of the parent.
pub open spec fn block_text(entries: Seq<(String, String)>, parent: Option<Seq<char>>) -> Seq<
    char,
> {
    match parent {
        Some(p) => "{\n"@ + level_text(entries) + "  parent = "@ + indent_text(p) + "\n"@ + "}"@,
        None => "{\n"@ + level_text(entries) + "}"@,
    }
}

/// The text of a chain, whose levels come innermost first; no text for no
/// level.
pub open spec fn chain_text(levels: Seq<Vec<(String, String)>>) -> Seq<char>
    decreases levels.len(),
{
    if levels.len() == 0 {
        Seq::empty()
    } else if levels.len() == 1 {
        block_text(levels[0]@, None)
    } else {
        block_text(levels[0]@, Some(chain_text(levels.skip(1))))
    }
}

/// `entries` gives the bindings of `level` as text: one entry for each key,
/// in the order of `keys`, made of what the key and its value display as.
pub open spec fn shows_keys<K: Display, V: Display>(
    level: Map<K, V>,
    keys: Seq<K>,
    entries: Seq<(String, String)>,
) -> bool {
    &&& keys.len() == entries.len()
    &&& keys.no_duplicates()
    &&& forall|k: K| #[trigger] level.contains_key(k) <==> keys.contains(k)
    &&& forall|j: int|
        0 <= j < keys.len() ==> {
            &&& to_string_from_display_ensures::<K>(&keys[j], (#[trigger] entries[j]).0)
            &&& to_string_from_display_ensures::<V>(&level[keys[j]], entries[j].1)
        }
}

/// `entries` gives the bindings of `level` as text, each once, in some order.
pub open spec fn shows_level<K: Display, V: Display>(
    level: Map<K, V>,
    entries: Seq<(String, String)>,
) -> bool {
    exists|keys: Seq<K>| shows_keys(level, keys, entries)
}

/// `shown` gives the bindings of every level of the chain as text.
pub open spec fn shows_chain<K: Display, V: Display>(
    levels: Seq<Map<K, V>>,
    shown: Seq<Vec<(String, String)>>,
) -> bool {
    &&& shown.len() == levels.len()
    &&& forall|i: int| 0 <= i < levels.len() ==> shows_level(levels[i], (#[trigger] shown[i])@)
}

/// `text` with two spaces put after each of its line breaks.
pub fn indent(text: &str) -> (out: String)
    ensures
        out@ == indent_text(text@),
{
    let mut out = String::new();
    for c in it: text.chars()
        invariant
            it.seq() == text@,
            out@ == indent_text(text@.take(it.index())),
    {
        proof {
            let n = it.index();
            assert(text@.take(n + 1).drop_last() =~= text@.take(n));
            assert(text@.take(n + 1).last() == c);
        }
        push_char(&mut out, c);
        if c == '\n' {
            out.append("  ");
        }
    }
    assert(text@.take(text@.len() as int) =~= text@);
    out
}

/// The lines of the bindings of one level, in the order given.
pub fn render_level(entries: &Vec<(String, String)>) -> (out: String)
    ensures
        out@ == level_text(entries@),
{
    let mut out = String::new();
    let mut n: usize = 0;
    while n < entries.len()
        invariant
            n <= entries.len(),
            out@ == level_text(entries@.take(n as int)),
        decreases entries.len() - n,
    {
        proof {
            assert(entries@.take(n + 1).drop_last() =~= entries@.take(n as int));
            assert(entries@.take(n + 1).last() == entries@[n as int]);
        }
        out.append("  ");
        out.append(entries[n].0.as_str());
        out.append(" = ");
        out.append(entries[n].1.as_str());
        out.append(",\n");
        n += 1;
    }
    assert(entries@.take(entries@.len() as int) =~= entries@);
    out
}

/// The text of a chain whose bindings are given as text, level by level,
/// innermost first.
pub fn render_levels(levels: &Vec<Vec<(String, String)>>) -> (out: String)
    ensures
        out@ == chain_text(levels@),
{
    let mut out = String::new();
    let mut n: usize = levels.len();
    while n > 0
        invariant
            n <= levels.len(),
            out@ == chain_text(levels@.skip(n as int)),
        decreases n,
    {
        n -= 1;
        proof {
            assert(levels@.skip(n as int).skip(1) =~= levels@.skip(n + 1));
            assert(levels@.skip(n as int)[0] == levels@[n as int]);
        }
        let mut block = String::new();
        block.append("{\n");
        let lines = render_level(&levels[n]);
        block.append(lines.as_str());
        if n + 1 < levels.len() {
            block.append("  parent = ");
            let inner = indent(out.as_str());
            block.append(inner.as_str());
            block.append("\n");
        }
        block.append("}");
        assert(block@ =~= chain_text(levels@.skip(n as int)));
        out = block;
    }
    assert(levels@.skip(0) =~= levels@);
    out
}

} // verus!
