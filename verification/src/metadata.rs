//! What a submission says of the interview it comes from.

pub mod laws;

use crate::rules::binding::{inside, KindModel, ViolationKind};
use crate::rules::Clock;
use crate::session::answers::{find_named, first_named};
use crate::text::{blank, chars_of, end_of_run, is_blank, slice, trim_start, Class};
use crate::tree::{Instance, NodeId, Tree};
use vstd::prelude::*;

verus! {

/// What `today()` answers where nothing says when an interview was held.
pub const NO_DAY: &'static str = "1970-01-01";

/// What `now()` answers where nothing says when an interview was held.
pub const NO_TIME: &'static str = "1970-01-01T00:00:00.000Z";

/// Whether a text is a document rather than the path of one: a document
/// starts with a tag, and no path does.
pub open spec fn starts_with_tag(text: Seq<char>) -> bool {
    trim_start(text).len() > 0 && trim_start(text)[0] == '<'
}

pub fn is_document(text: &str) -> (r: bool)
    ensures
        r == starts_with_tag(text@),
{
    let v = chars_of(text);
    let at = end_of_run(&v, 0, Class::White);
    at < v.len() && v[at] == '<'
}

/// What the first node of a name in a list holds, where it holds anything.
pub open spec fn stated(t: Tree, s: Seq<NodeId>, name: Seq<char>) -> Option<Seq<char>> {
    match first_named(t, s, name, 0) {
        Some(n) => if is_blank(t.string_value(n)) {
            None
        } else {
            Some(t.string_value(n))
        },
        None => None,
    }
}

/// How many bytes a character takes in UTF-8.
pub open spec fn width(c: char) -> nat {
    if c <= '\u{7f}' {
        1
    } else if c <= '\u{7ff}' {
        2
    } else if c <= '\u{ffff}' {
        3
    } else {
        4
    }
}

/// The first `room` bytes of a text from `i` on, or all of it where it is
/// shorter. There is no such text where a character stands across the end.
pub open spec fn first_bytes(s: Seq<char>, i: int, room: int) -> Option<Seq<char>>
    decreases s.len() - i,
{
    if i < 0 || i >= s.len() || room == 0 {
        Some(Seq::empty())
    } else if width(s[i]) > room {
        None
    } else {
        match first_bytes(s, i + 1, room - width(s[i])) {
            Some(rest) => Some(seq![s[i]] + rest),
            None => None,
        }
    }
}

/// What `now()` answers on a submission: when the interview ended, or when
/// it started.
pub open spec fn time_of(t: Tree, s: Seq<NodeId>) -> Seq<char> {
    match stated(t, s, "end"@) {
        Some(end) => end,
        None => match stated(t, s, "start"@) {
            Some(start) => start,
            None => NO_TIME@,
        },
    }
}

fn statement(instance: &Instance, nodes: &Vec<NodeId>, name: &str) -> (r: Option<String>)
    requires
        instance@.wf(),
        instance@.all_in(nodes@),
    ensures
        inside(r) == stated(instance@, nodes@, name@),
{
    match find_named(instance, nodes, name) {
        Some(node) => {
            let value = instance.string_value(node);
            if blank(value.as_str()) {
                None
            } else {
                Some(value)
            }
        },
        None => None,
    }
}

fn time(instance: &Instance, nodes: &Vec<NodeId>, now: Option<&str>) -> (r: String)
    requires
        instance@.wf(),
        instance@.all_in(nodes@),
    ensures
        r@ == match now {
            Some(text) => text@,
            None => time_of(instance@, nodes@),
        },
{
    if let Some(text) = now {
        return text.to_string();
    }
    if let Some(end) = statement(instance, nodes, "end") {
        return end;
    }
    match statement(instance, nodes, "start") {
        Some(start) => start,
        None => NO_TIME.to_string(),
    }
}

fn bytes_before(v: &Vec<char>, room: usize) -> (r: Option<String>)
    ensures
        inside(r) == first_bytes(v@, 0, room as int),
{
    let mut left: usize = room;
    let mut i: usize = 0;
    let n = v.len();
    let ghost goal = first_bytes(v@, 0, room as int);
    assert(v@.take(0) == Seq::<char>::empty());
    proof {
        if let Some(all) = goal {
            assert(v@.take(0) + all == all);
        }
    }
    while i < n && left > 0
        invariant
            n == v@.len(),
            i <= n,
            goal == first_bytes(v@, 0, room as int),
            goal is None ==> first_bytes(v@, i as int, left as int) is None,
            goal matches Some(all) ==> first_bytes(v@, i as int, left as int) matches Some(rest)
                && all == v@.take(i as int) + rest,
        decreases n - i,
    {
        let c = v[i];
        let w: usize = if c <= '\u{7f}' {
            1
        } else if c <= '\u{7ff}' {
            2
        } else if c <= '\u{ffff}' {
            3
        } else {
            4
        };
        if w > left {
            return None;
        }
        proof {
            if let Some(rest) = first_bytes(v@, i + 1, left - w) {
                assert(v@.take(i as int) + (seq![c] + rest) == v@.take(i + 1) + rest);
            }
        }
        left = left - w;
        i = i + 1;
    }
    let r = slice(v, 0, i);
    assert(r@ == v@.take(i as int));
    assert(v@.take(i as int) + Seq::<char>::empty() == v@.take(i as int));
    Some(r)
}

/// What `today()` answers on a submission, its metadata being anywhere in
/// it: the day it states, or the first ten bytes of when it ended. There is
/// no answer where those end inside a character.
pub open spec fn day_anywhere(t: Tree, s: Seq<NodeId>) -> Option<Seq<char>> {
    match stated(t, s, "today"@) {
        Some(day) => Some(day),
        None => match stated(t, s, "end"@) {
            Some(end) => first_bytes(end, 0, 10),
            None => Some(NO_DAY@),
        },
    }
}

/// What `today()` answers on a submission, its metadata being right below
/// the root: the day it states, or the first ten characters of when it
/// ended.
pub open spec fn day_at_top(t: Tree, s: Seq<NodeId>) -> Seq<char> {
    match stated(t, s, "today"@) {
        Some(day) => day,
        None => match stated(t, s, "end"@) {
            Some(end) => if end.len() > 10 {
                end.take(10)
            } else {
                end
            },
            None => NO_DAY@,
        },
    }
}

pub open spec fn all_below(t: Tree) -> Seq<NodeId> {
    match t.root {
        Some(root) => t.descendants(root),
        None => Seq::empty(),
    }
}

pub open spec fn right_below(t: Tree) -> Seq<NodeId> {
    match t.root {
        Some(root) => t.children(root),
        None => Seq::empty(),
    }
}

/// The clock for a submission, from what the caller says or else from the
/// submission's own metadata wherever it stands, so a date rule is judged
/// against the day the work was done rather than the day of the check.
/// `None` where the day would have to be cut inside a character.
pub fn clock_anywhere(instance: &Instance, today: Option<&str>, now: Option<&str>) -> (r: Option<
    Clock,
>)
    requires
        instance@.wf(),
    ensures
        match (match today {
            Some(text) => Some(text@),
            None => day_anywhere(instance@, all_below(instance@)),
        }) {
            Some(day) => r matches Some(clock) && clock.today@ == day && clock.now@ == match now {
                Some(text) => text@,
                None => time_of(instance@, all_below(instance@)),
            },
            None => r is None,
        },
{
    let nodes: Vec<NodeId> = match instance.root() {
        Some(root) => instance.descendants(root),
        None => Vec::new(),
    };
    assert(nodes@ == all_below(instance@));
    let day = match today {
        Some(text) => text.to_string(),
        None => match statement(instance, &nodes, "today") {
            Some(day) => day,
            None => match statement(instance, &nodes, "end") {
                Some(end) => match bytes_before(&chars_of(end.as_str()), 10) {
                    Some(day) => day,
                    None => {
                        return None;
                    },
                },
                None => NO_DAY.to_string(),
            },
        },
    };
    Some(Clock { today: day, now: time(instance, &nodes, now) })
}

/// The clock for a submission, from what the caller says or else from the
/// submission's own metadata right below its root.
pub fn clock_at_top(instance: &Instance, today: Option<&str>, now: Option<&str>) -> (r: Clock)
    requires
        instance@.wf(),
    ensures
        r.today@ == match today {
            Some(text) => text@,
            None => day_at_top(instance@, right_below(instance@)),
        },
        r.now@ == match now {
            Some(text) => text@,
            None => time_of(instance@, right_below(instance@)),
        },
{
    let nodes: Vec<NodeId> = match instance.root() {
        Some(root) => {
            proof {
                instance@.lemma_children_in(root);
            }
            instance.children(root)
        },
        None => Vec::new(),
    };
    assert(nodes@ == right_below(instance@));
    let day = match today {
        Some(text) => text.to_string(),
        None => match statement(instance, &nodes, "today") {
            Some(day) => day,
            None => match statement(instance, &nodes, "end") {
                Some(end) => {
                    let v = chars_of(end.as_str());
                    if v.len() > 10 {
                        let day = slice(&v, 0, 10);
                        assert(day@ == end@.take(10));
                        day
                    } else {
                        end
                    }
                },
                None => NO_DAY.to_string(),
            },
        },
    };
    Clock { today: day, now: time(instance, &nodes, now) }
}

/// A kind of violation in one word, for a report that is filtered by it.
pub open spec fn kind_label(k: KindModel) -> Seq<char> {
    match k {
        KindModel::Constraint => "constraint"@,
        KindModel::Required => "required"@,
        KindModel::Calculation { .. } => "calculation"@,
        KindModel::Failed(_) => "not-evaluated"@,
    }
}

impl ViolationKind {
    /// A rule the engine could not evaluate is `not-evaluated`, never a
    /// pass.
    pub fn label(&self) -> (r: &'static str)
        ensures
            r@ == kind_label(self@),
    {
        match self {
            ViolationKind::Constraint => "constraint",
            ViolationKind::Required => "required",
            ViolationKind::Calculation { .. } => "calculation",
            ViolationKind::Failed(_) => "not-evaluated",
        }
    }
}

} // verus!
