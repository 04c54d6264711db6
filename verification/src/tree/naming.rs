//! How elements are named, and what they hold.

use crate::text::join;
use crate::tree::{NodeId, Tree};
use vstd::prelude::*;

verus! {

/// The path of an element is that of what it stands in, and its own name; the
/// path of one that stands in nothing is its name.
pub proof fn law_paths_grow_by_names(t: Tree, n: NodeId)
    requires
        t.wf(),
        t.has(n),
    ensures
        match t.parent(n) {
            Some(p) => t.path_of(n) == t.path_of(p) + "/"@ + t.name(n),
            None => t.path_of(n) == "/"@ + t.name(n),
        },
{
    let up = (seq![n] + t.ancestors(n)).reverse();
    match t.parent(n) {
        Some(p) => {
            let above = (seq![p] + t.ancestors(p)).reverse();
            assert(up =~= above.push(n));
            let names = t.names(above);
            assert(t.names(up) =~= names.push(t.name(n)));
            assert(names.push(t.name(n)).drop_last() =~= names);
            assert(join(names.push(t.name(n)), "/"@) == join(names, "/"@) + "/"@ + t.name(n));
            assert("/"@ + (join(names, "/"@) + "/"@ + t.name(n)) =~= "/"@ + join(names, "/"@)
                + "/"@ + t.name(n));
        },
        None => {
            assert(up =~= seq![n]);
            assert(t.names(up) =~= seq![t.name(n)]);
            reveal_with_fuel(join, 2);
        },
    }
}

proof fn lemma_values(t: Tree, s: Seq<NodeId>, i: int)
    requires
        0 <= i < s.len(),
    ensures
        exists|x: Seq<char>, y: Seq<char>| t.values(s) == #[trigger] (x + t.value(s[i]) + y),
    decreases s.len(),
{
    let d = s.drop_last();
    if i == s.len() - 1 {
        let none = Seq::<char>::empty();
        assert(t.values(s) =~= t.values(d) + t.value(s[i]) + none);
    } else {
        lemma_values(t, d, i);
        assert(d[i] == s[i]);
        let (x, y) = choose|x: Seq<char>, y: Seq<char>|
            t.values(d) == #[trigger] (x + t.value(d[i]) + y);
        assert(t.values(s) =~= x + t.value(s[i]) + (y + t.value(s.last())));
    }
}

/// What an element holds as text has in it what it holds itself, first, and
/// what every element below it holds; one with nothing below it holds just
/// its own.
pub proof fn law_text_is_what_elements_hold(t: Tree, n: NodeId, d: NodeId)
    requires
        t.wf(),
        t.has(n),
    ensures
        exists|y: Seq<char>| t.string_value(n) == #[trigger] (t.value(n) + y),
        t.descendants(n).contains(d) ==> exists|x: Seq<char>, y: Seq<char>|
            t.string_value(n) == #[trigger] (x + t.value(d) + y),
        t.children(n).len() == 0 ==> t.string_value(n) == t.value(n),
{
    let s = t.descendants(n);
    assert(t.string_value(n) == t.value(n) + t.values(s));
    if s.contains(d) {
        let i = choose|i: int| 0 <= i < s.len() && s[i] == d;
        lemma_values(t, s, i);
        let (x, y) = choose|x: Seq<char>, y: Seq<char>|
            t.values(s) == #[trigger] (x + t.value(s[i]) + y);
        assert(t.string_value(n) =~= (t.value(n) + x) + t.value(d) + y);
    }
    if t.children(n).len() == 0 {
        assert(t.below(n, 0, false) == Seq::<NodeId>::empty());
        assert(s == Seq::<NodeId>::empty());
        assert(t.value(n) + Seq::<char>::empty() =~= t.value(n));
    }
}

} // verus!
