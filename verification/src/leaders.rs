//! Basic-block leader analysis: which instruction indices begin a basic
//! block. Index 0 is a leader of every non-empty program; every branch
//! makes its target a leader, and the instruction after it too, if there is
//! one.

use crate::bytecode::Inst;
use vstd::prelude::*;

verus! {

/// The instruction at index `k` makes index `x` a leader.
pub open spec fn marks(prog: Seq<Inst>, k: int, x: int) -> bool {
    match prog[k] {
        Inst::Bne(_, _, target) => x == target || (x == k + 1 && k + 1 < prog.len()),
        _ => false,
    }
}

/// Index 0, or an index marked by one of the first `n` instructions.
pub open spec fn leader_among(prog: Seq<Inst>, n: int, x: int) -> bool {
    x == 0 || exists|k: int| 0 <= k < n && #[trigger] marks(prog, k, x)
}

/// `x` is a leader of `prog`.
pub open spec fn is_leader(prog: Seq<Inst>, x: int) -> bool {
    prog.len() > 0 && leader_among(prog, prog.len() as int, x)
}

/// Strictly ascending: sorted and free of duplicates.
pub open spec fn ascending(s: Seq<usize>) -> bool {
    forall|i: int, j: int| 0 <= i < j < s.len() ==> s[i] < s[j]
}

/// Leader completeness: in a non-empty program index 0 is a leader, and a
/// branch at index `i` makes its target a leader and, when `i + 1` is still
/// inside the program, `i + 1` as well.
pub proof fn lemma_leader_completeness(prog: Seq<Inst>, i: int)
    requires
        prog.len() > 0,
        0 <= i < prog.len(),
    ensures
        is_leader(prog, 0),
        prog[i] matches Inst::Bne(_, _, target) ==> is_leader(prog, target as int) && (i + 1
            < prog.len() ==> is_leader(prog, i + 1)),
{
    match prog[i] {
        Inst::Bne(_, _, target) => {
            assert(marks(prog, i, target as int));
            if i + 1 < prog.len() {
                assert(marks(prog, i, i + 1));
            }
        },
        _ => {},
    }
}

/// Puts `x` into an ascending vector at its place, unless it is there.
pub fn insert_ascending(v: &mut Vec<usize>, x: usize)
    requires
        ascending(old(v)@),
    ensures
        ascending(final(v)@),
        forall|y: usize| final(v)@.contains(y) <==> (old(v)@.contains(y) || y == x),
{
    let mut pos: usize = 0;
    while pos < v.len() && v[pos] < x
        invariant
            pos <= v@.len(),
            v@ == old(v)@,
            forall|k: int| 0 <= k < pos ==> v@[k] < x,
        decreases v@.len() - pos,
    {
        pos += 1;
    }
    if pos < v.len() && v[pos] == x {
        assert(v@.contains(x));
        return ;
    }
    let ghost before = v@;
    v.insert(pos, x);
    proof {
        let after = v@;
        assert(after == before.insert(pos as int, x));
        assert forall|i: int, j: int| 0 <= i < j < after.len() implies after[i] < after[j] by {
            if i < pos && j > pos {
                assert(after[i] == before[i] && after[j] == before[j - 1]);
            } else if i > pos {
                assert(after[i] == before[i - 1] && after[j] == before[j - 1]);
            } else if j < pos {
                assert(after[i] == before[i] && after[j] == before[j]);
            } else if j == pos {
                assert(after[i] == before[i]);
            } else {
                assert(i == pos);
                assert(after[j] == before[j - 1]);
                assert(before[pos as int] <= before[j - 1]);
            }
        }
        assert forall|y: usize| after.contains(y) <==> (before.contains(y) || y == x) by {
            if after.contains(y) {
                let k = choose|k: int| 0 <= k < after.len() && after[k] == y;
                if k < pos {
                    assert(before[k] == y);
                } else if k > pos {
                    assert(before[k - 1] == y);
                }
            }
            if before.contains(y) {
                let k = choose|k: int| 0 <= k < before.len() && before[k] == y;
                if k < pos {
                    assert(after[k] == y);
                } else {
                    assert(after[k + 1] == y);
                }
            }
            if y == x {
                assert(after[pos as int] == y);
            }
        }
    }
}

/// Finds the first instructions of the basic blocks, the leaders, and
/// returns them in ascending order, each once.
pub fn find_leaders(bc: Vec<Inst>) -> (leaders: Vec<usize>)
    ensures
        ascending(leaders@),
        forall|x: usize| leaders@.contains(x) <==> is_leader(bc@, x as int),
{
    let mut leaders: Vec<usize> = Vec::new();
    if bc.len() == 0 {
        return leaders;
    }
    leaders.push(0);
    assert(leaders@[0] == 0);
    let mut i: usize = 0;
    while i < bc.len()
        invariant
            i <= bc@.len(),
            ascending(leaders@),
            forall|x: usize| leaders@.contains(x) <==> leader_among(bc@, i as int, x as int),
        decreases bc@.len() - i,
    {
        let ghost before = leaders@;
        match bc[i] {
            Inst::Bne(_, _, target) => {
                insert_ascending(&mut leaders, target as usize);
                if i + 1 < bc.len() {
                    insert_ascending(&mut leaders, i + 1);
                }
            },
            _ => {},
        }
        proof {
            assert forall|x: usize| leaders@.contains(x) <==> leader_among(
                bc@,
                i + 1,
                x as int,
            ) by {
                if leader_among(bc@, i + 1, x as int) && x != 0 {
                    let k = choose|k: int| 0 <= k < i + 1 && marks(bc@, k, x as int);
                    if k < i {
                        assert(leader_among(bc@, i as int, x as int));
                    }
                }
                if before.contains(x) && x != 0 {
                    let k = choose|k: int| 0 <= k < i && marks(bc@, k, x as int);
                    assert(marks(bc@, k, x as int));
                }
                if leaders@.contains(x) && !before.contains(x) {
                    assert(marks(bc@, i as int, x as int));
                }
            }
        }
        i += 1;
    }
    leaders
}

/// The basic blocks of a program of `len` instructions, as half-open index
/// ranges in program order: each block runs from one leader up to, but not
/// including, the next leader or the end of the program. Leaders at or
/// beyond the end of the program begin no block.
pub fn carve_blocks(len: usize, leaders: &Vec<usize>) -> (blocks: Vec<(usize, usize)>)
    requires
        ascending(leaders@),
    ensures
        blocks@.len() <= leaders@.len(),
        forall|k: int| 0 <= k < blocks@.len() ==> leaders@[k] < len,
        blocks@.len() < leaders@.len() ==> leaders@[blocks@.len() as int] >= len,
        forall|k: int|
            0 <= k < blocks@.len() ==> #[trigger] blocks@[k] == (
                leaders@[k],
                if k + 1 < blocks@.len() {
                    leaders@[k + 1]
                } else {
                    len
                },
            ),
        forall|k: int| 0 <= k < blocks@.len() ==> (#[trigger] blocks@[k]).0 < blocks@[k].1 <= len,
{
    let mut blocks: Vec<(usize, usize)> = Vec::new();
    let mut k: usize = 0;
    while k < leaders.len() && leaders[k] < len
        invariant
            ascending(leaders@),
            k <= leaders@.len(),
            blocks@.len() == k,
            forall|j: int| 0 <= j < k ==> leaders@[j] < len,
            forall|j: int|
                0 <= j < k ==> #[trigger] blocks@[j] == (
                    leaders@[j],
                    if j + 1 < leaders@.len() && leaders@[j + 1] < len {
                        leaders@[j + 1]
                    } else {
                        len
                    },
                ),
        decreases leaders@.len() - k,
    {
        let end: usize = if k + 1 < leaders.len() && leaders[k + 1] < len {
            leaders[k + 1]
        } else {
            len
        };
        blocks.push((leaders[k], end));
        k += 1;
    }
    proof {
        assert forall|j: int| 0 <= j < blocks@.len() implies #[trigger] blocks@[j] == (
            leaders@[j],
            if j + 1 < blocks@.len() {
                leaders@[j + 1]
            } else {
                len
            },
        ) by {
            if j + 1 < k {
                assert(leaders@[j + 1] < len);
            }
        }
    }
    blocks
}

/// The blocks carved from the leaders of a program cover it: the first
/// begins at index 0, each begins where the one before it ends, and the
/// last ends at the end of the program.
pub proof fn lemma_blocks_cover(len: usize, leaders: Seq<usize>, blocks: Seq<(usize, usize)>)
    requires
        ascending(leaders),
        len > 0,
        leaders.len() > 0 && leaders[0] == 0,
        blocks.len() <= leaders.len(),
        forall|k: int| 0 <= k < blocks.len() ==> leaders[k] < len,
        blocks.len() < leaders.len() ==> leaders[blocks.len() as int] >= len,
        forall|k: int|
            0 <= k < blocks.len() ==> #[trigger] blocks[k] == (
                leaders[k],
                if k + 1 < blocks.len() {
                    leaders[k + 1]
                } else {
                    len
                },
            ),
    ensures
        blocks.len() > 0,
        blocks[0].0 == 0,
        blocks[blocks.len() - 1].1 == len,
        forall|k: int| 0 <= k < blocks.len() - 1 ==> (#[trigger] blocks[k]).1 == blocks[k + 1].0,
{
    assert(blocks[0] == blocks[0]);
    assert(blocks[blocks.len() - 1] == blocks[blocks.len() - 1]);
    assert forall|k: int| 0 <= k < blocks.len() - 1 implies (#[trigger] blocks[k]).1 == blocks[k
        + 1].0 by {
        assert(blocks[k + 1] == blocks[k + 1]);
    }
}

} // verus!
