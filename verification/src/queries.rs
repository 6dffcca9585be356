//! Reconstruction of a file edit's context: walk the parent chain backwards
//! from the edit until a human-turn boundary, a broken link, a revisited
//! line, or the chain-length bound stops it, then report the lines in
//! chronological order together with the triggering line.

use vstd::prelude::*;

use crate::model::opt_str_view;
use crate::strmap::{assoc_get, assoc_has_key};
use crate::types::{IndexError, SessionIndex};

verus! {

/// The context of one file edit: the lines from the triggering human turn
/// through to the edit, in chronological order, plus the two boundaries.
/// The caller materializes the records behind the lines by re-reading only
/// those byte offsets.
#[derive(Clone, Debug)]
pub struct EditContext {
    /// Sequence numbers of the context's records, in chronological order.
    pub lines: Vec<u32>,
    /// Sequence number of the triggering human turn.
    pub trigger_line: u32,
    /// Sequence number of the edit itself.
    pub edit_line: u32,
}

/// The lines the backward walk accumulates, newest first. Each step
/// resolves the current identifier's parent and the parent's line; the walk
/// stops at a human turn (inclusive), at a broken link, at a line already
/// collected (a cycle in the parent links), or when the fuel — the number
/// of parent links, an upper bound on any simple chain — runs out.
pub open spec fn spec_walk(uuid_m: Seq<(Seq<char>, u32)>, parent_m: Seq<(Seq<char>, Seq<char>)>,
    human: Seq<u32>, acc: Seq<u32>, cur: Option<Seq<char>>, fuel: nat) -> Seq<u32>
    decreases fuel,
{
    match cur {
        None => acc,
        Some(u) => {
            if fuel == 0 {
                acc
            } else {
                match assoc_get(parent_m, u) {
                    None => acc,
                    Some(p) => match assoc_get(uuid_m, p) {
                        None => acc,
                        Some(pl) => {
                            if acc.contains(pl) {
                                acc
                            } else {
                                let acc2 = acc.push(pl);
                                if human.contains(pl) {
                                    acc2
                                } else {
                                    spec_walk(uuid_m, parent_m, human, acc2, Some(p), (fuel
                                        - 1) as nat)
                                }
                            }
                        },
                    },
                }
            }
        },
    }
}

/// What the reported trigger line satisfies when the walk did not itself
/// end on a human turn: the nearest human turn at or before the edit, or
/// zero when none precedes it.
pub open spec fn boundary_fallback(human: Seq<u32>, line: u32, t: u32) -> bool {
    if exists|x: u32| human.contains(x) && x <= line {
        human.contains(t) && t <= line && forall|x: u32| human.contains(x) && x <= line ==> x <= t
    } else {
        t == 0
    }
}

/// Is a line among the collected ones?
fn contains_line(v: &Vec<u32>, x: u32) -> (r: bool)
    ensures
        r == v@.contains(x),
{
    let n = v.len();
    let mut i: usize = 0;
    while i < n
        invariant
            i <= n,
            n == v@.len(),
            forall|j: int| 0 <= j < i ==> v@[j] != x,
        decreases n - i,
    {
        if v[i] == x {
            return true;
        }
        i += 1;
    }
    proof {
        if v@.contains(x) {
            let j = choose|j: int| 0 <= j < v@.len() && v@[j] == x;
            assert(v@[j] == x);
        }
    }
    false
}

/// The collected lines in chronological order.
fn reversed(v: &Vec<u32>) -> (r: Vec<u32>)
    ensures
        r@ == v@.reverse(),
{
    let n = v.len();
    let mut r: Vec<u32> = Vec::new();
    let mut i: usize = 0;
    while i < n
        invariant
            i <= n,
            n == v@.len(),
            r@.len() == i,
            forall|j: int| 0 <= j < i ==> r@[j] == v@[n - 1 - j],
        decreases n - i,
    {
        r.push(v[n - 1 - i]);
        i += 1;
    }
    proof {
        assert(r@ =~= v@.reverse());
    }
    r
}

/// The context for a file edit at the given line.
///
/// Fails only when the line holds no recognized tool invocation. The walk
/// always terminates: it is bounded by the number of parent links and
/// guarded against revisiting a line, so a cycle or a link out of the
/// indexed range stops it rather than looping.
pub fn get_edit_context(index: &SessionIndex, edit_line: u32) -> (r: Result<EditContext, IndexError>)
    requires
        index.wf(),
    ensures
        r is Err <==> assoc_get(index@.edit_metadata, edit_line) is None,
        r matches Err(e) ==> e == IndexError::MissingEditMetadata,
        r matches Ok(ctx) ==> {
            let walked = spec_walk(
                index@.uuid_to_line,
                index@.parent_map,
                index@.human_message_lines,
                seq![edit_line],
                assoc_get(index@.edit_metadata, edit_line).unwrap(),
                index@.parent_map.len(),
            );
            let chron = walked.reverse();
            &&& ctx.lines@ == chron
            &&& ctx.edit_line == edit_line
            &&& if chron.len() > 1 && index@.human_message_lines.contains(chron[0]) {
                ctx.trigger_line == chron[0]
            } else {
                boundary_fallback(index@.human_message_lines, edit_line, ctx.trigger_line)
            }
        },
{
    let meta = match index.edit_metadata.get(edit_line) {
        Some(m) => m,
        None => {
            return Err(IndexError::MissingEditMetadata);
        },
    };
    let mut lines: Vec<u32> = Vec::new();
    lines.push(edit_line);
    let mut current: Option<String> = match &meta.uuid {
        Some(s) => Some(s.clone()),
        None => None,
    };
    let mut fuel: usize = index.parent_map.len();
    let ghost target = spec_walk(
        index@.uuid_to_line,
        index@.parent_map,
        index@.human_message_lines,
        seq![edit_line],
        opt_str_view(current),
        fuel as nat,
    );
    proof {
        assert(lines@ =~= seq![edit_line]);
    }
    loop
        invariant_except_break
            index.wf(),
            target == spec_walk(
                index@.uuid_to_line,
                index@.parent_map,
                index@.human_message_lines,
                lines@,
                opt_str_view(current),
                fuel as nat,
            ),
        ensures
            lines@ == target,
        decreases fuel,
    {
        let u = match &current {
            Some(u) => u.clone(),
            None => {
                break;
            },
        };
        if fuel == 0 {
            break;
        }
        let p = match index.parent_map.get(u.as_str()) {
            Some(p) => p.clone(),
            None => {
                break;
            },
        };
        let pl = match index.uuid_to_line.get(p.as_str()) {
            Some(v) => *v,
            None => {
                break;
            },
        };
        if contains_line(&lines, pl) {
            break;
        }
        lines.push(pl);
        if index.is_human_message(pl) {
            break;
        }
        current = Some(p);
        fuel = fuel - 1;
    }
    let chron = reversed(&lines);
    let trigger_line = if chron.len() > 1 && index.is_human_message(chron[0]) {
        chron[0]
    } else {
        match index.find_human_boundary(edit_line) {
            Some(l) => l,
            None => 0,
        }
    };
    Ok(EditContext { lines: chron, trigger_line, edit_line })
}

} // verus!
