//! Rendering resolved steps as text: each entry of a step becomes the item's
//! name, or the enchantment's name with its level, and a carrier holding
//! several entries lists the extra ones after the first.

use vstd::prelude::*;
use crate::registry;
use crate::solver::{ResolvedStepItem, ResolvedItemView};

verus! {

/// The decimal digit `d` as a character.
pub open spec fn digit_char(d: nat) -> char {
    if d == 0 {
        '0'
    } else if d == 1 {
        '1'
    } else if d == 2 {
        '2'
    } else if d == 3 {
        '3'
    } else if d == 4 {
        '4'
    } else if d == 5 {
        '5'
    } else if d == 6 {
        '6'
    } else if d == 7 {
        '7'
    } else if d == 8 {
        '8'
    } else {
        '9'
    }
}

/// The decimal rendering of a number, most significant digit first.
pub open spec fn decimal_spec(n: nat) -> Seq<char>
    decreases n,
{
    if n < 10 {
        seq![digit_char(n)]
    } else {
        decimal_spec(n / 10) + seq![digit_char(n % 10)]
    }
}

/// One decimal digit as text.
fn digit_str(d: u32) -> (r: String)
    requires
        d < 10,
    ensures
        r@ == seq![digit_char(d as nat)],
{
    let r = match d {
        0 => String::from_str("0"),
        1 => String::from_str("1"),
        2 => String::from_str("2"),
        3 => String::from_str("3"),
        4 => String::from_str("4"),
        5 => String::from_str("5"),
        6 => String::from_str("6"),
        7 => String::from_str("7"),
        8 => String::from_str("8"),
        _ => String::from_str("9"),
    };
    proof {
        reveal_strlit("0");
        reveal_strlit("1");
        reveal_strlit("2");
        reveal_strlit("3");
        reveal_strlit("4");
        reveal_strlit("5");
        reveal_strlit("6");
        reveal_strlit("7");
        reveal_strlit("8");
        reveal_strlit("9");
        assert(r@ =~= seq![digit_char(d as nat)]);
    }
    r
}

/// A number rendered in decimal.
pub fn u32_decimal(n: u32) -> (r: String)
    ensures
        r@ == decimal_spec(n as nat),
    decreases n,
{
    if n < 10 {
        digit_str(n)
    } else {
        let mut s = u32_decimal(n / 10);
        let last = digit_str(n % 10);
        s.append(last.as_str());
        proof {
            assert(s@ =~= decimal_spec(n as nat));
        }
        s
    }
}

/// Texts joined by a separator: the parts in order, the separator between
/// each neighbouring two.
pub open spec fn join_spec(parts: Seq<Seq<char>>, sep: Seq<char>) -> Seq<char>
    decreases parts.len(),
{
    if parts.len() == 0 {
        Seq::empty()
    } else if parts.len() == 1 {
        parts[0]
    } else {
        parts[0] + sep + join_spec(parts.drop_first(), sep)
    }
}

/// Relies on itertools' `join`: the elements, rendered in order, with the
/// separator between each neighbouring two and an empty result for no
/// elements; a `String` renders as itself.
#[verifier::external_body]
pub(crate) fn join_strings(parts: &Vec<String>, sep: &str) -> (r: String)
    ensures
        r@ == join_spec(parts.deep_view(), sep@),
{
    itertools::Itertools::join(&mut parts.iter(), sep)
}

/// The text one resolved entry renders to: the item kind's name for the bare
/// item, else the enchantment's name, with the level after it when it is
/// above one.
pub open spec fn item_label(v: ResolvedItemView, item: registry::Item) -> Seq<char> {
    match v {
        ResolvedItemView::Item => item.label_spec(),
        ResolvedItemView::Enchant(sel) => if sel.level > 1 {
            sel.enchant.name + seq![' '] + decimal_spec(sel.level as nat)
        } else {
            sel.enchant.name
        },
    }
}

/// The texts a run of resolved entries renders to, in order.
pub open spec fn item_labels(s: Seq<ResolvedStepItem>, item: registry::Item) -> Seq<Seq<char>> {
    s.map_values(|x: ResolvedStepItem| item_label(x@, item))
}

/// Rendering one side of a resolved step as text.
pub trait StepExt {
    /// When this value can be rendered.
    spec fn format_req(&self, item: registry::Item) -> bool;

    /// The text this value renders to.
    spec fn format_spec(&self, item: registry::Item) -> Seq<char>;

    /// Renders this value, given the item kind the search was run for.
    fn format(&self, item: registry::Item) -> (r: String)
        requires
            self.format_req(item),
        ensures
            r@ == self.format_spec(item),
    ;
}

} // verus!
