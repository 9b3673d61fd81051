//! How a bracket finds its partner.

use crate::error::BrainLuckError;
use vstd::prelude::*;

verus! {

/// The bracket that a scan for a partner sets out from. From a `[` the scan
/// runs towards the end of the program, from a `]` towards its start.
#[derive(Clone, Copy, Debug)]
pub enum Bracket {
    /// A `[`: its partner is looked for towards the end of the program.
    LBracket,
    /// A `]`: its partner is looked for towards the start of the program.
    RBracket,
}

impl Bracket {
    /// Where a scan that began at `from` stands after moving on `k` times.
    pub open spec fn position(self, from: int, k: int) -> int {
        match self {
            Bracket::LBracket => from + k,
            Bracket::RBracket => from - k,
        }
    }

    /// How many times a scan that began at `from` has moved on when it
    /// stands at `at`.
    pub open spec fn distance(self, from: int, at: int) -> int {
        match self {
            Bracket::LBracket => at - from,
            Bracket::RBracket => from - at,
        }
    }

    /// What the character `c` adds to the depth of a scan: a bracket of the
    /// kind the scan set out from opens a level, one of the other kind closes
    /// a level, and any other character leaves the depth as it is.
    pub open spec fn weight(self, c: char) -> int {
        match self {
            Bracket::LBracket => if c == '[' {
                1int
            } else if c == ']' {
                -1
            } else {
                0
            },
            Bracket::RBracket => if c == ']' {
                1int
            } else if c == '[' {
                -1
            } else {
                0
            },
        }
    }
}

/// The nesting depth of a scan from `from`, relative to where it began, once
/// it has taken in `n` characters (the one at `from` is the first).
pub open spec fn depth(program: Seq<char>, b: Bracket, from: int, n: nat) -> int
    decreases n,
{
    if n == 0 {
        0
    } else {
        depth(program, b, from, (n - 1) as nat) + b.weight(
            program[b.position(from, n - 1)],
        )
    }
}

/// `at` is the boundary that a scan from `from` finds: both positions lie in
/// the program, `at` is not behind `from`, the depth is back at zero once the
/// character at `at` is taken in, and it was positive all the way there.
pub open spec fn is_boundary(program: Seq<char>, b: Bracket, from: int, at: int) -> bool {
    &&& 0 <= from < program.len()
    &&& 0 <= at < program.len()
    &&& b.distance(from, at) >= 0
    &&& depth(program, b, from, (b.distance(from, at) + 1) as nat) == 0
    &&& forall|k: nat| 1 <= k <= b.distance(from, at) ==> depth(program, b, from, k) > 0
}

/// The boundary that a scan from `from` finds, if it finds one.
pub open spec fn boundary(program: Seq<char>, b: Bracket, from: int) -> Option<int> {
    if exists|at: int| is_boundary(program, b, from, at) {
        Some(choose|at: int| is_boundary(program, b, from, at))
    } else {
        None
    }
}

/// A scan finds at most one boundary.
pub proof fn lemma_boundary_unique(program: Seq<char>, b: Bracket, from: int, at: int)
    requires
        is_boundary(program, b, from, at),
    ensures
        boundary(program, b, from) == Some(at),
{
    let found = choose|at: int| is_boundary(program, b, from, at);
    let n = b.distance(from, at);
    let m = b.distance(from, found);
    if m < n {
        assert(depth(program, b, from, (m + 1) as nat) > 0);
    } else if n < m {
        assert(depth(program, b, from, (n + 1) as nat) > 0);
    }
}

/// A scan whose depth stayed positive for `seen` characters and then falls
/// below zero, or leaves the program, finds no boundary.
pub proof fn lemma_scan_fails(program: Seq<char>, b: Bracket, from: int, seen: nat)
    requires
        forall|k: nat| 1 <= k <= seen ==> depth(program, b, from, k) > 0,
        depth(program, b, from, seen + 1) < 0 || !(0 <= b.position(from, seen as int)
            < program.len()),
    ensures
        boundary(program, b, from).is_none(),
{
    assert forall|at: int| !is_boundary(program, b, from, at) by {
        if is_boundary(program, b, from, at) {
            let n = b.distance(from, at);
            if n < seen {
                assert(depth(program, b, from, (n + 1) as nat) > 0);
            } else if n > seen {
                assert(depth(program, b, from, seen + 1) > 0);
            }
        }
    }
}

/// The depth of a backward scan from `close`, told by that of the forward
/// scan from `open`: what the backward scan has taken in is what the forward
/// scan still lacks to reach `close`.
proof fn lemma_depth_mirror(program: Seq<char>, open: int, close: int, j: nat)
    requires
        open <= close,
        j <= close - open + 1,
    ensures
        depth(program, Bracket::RBracket, close, j) == depth(
            program,
            Bracket::LBracket,
            open,
            (close - open + 1 - j) as nat,
        ) - depth(program, Bracket::LBracket, open, (close - open + 1) as nat),
    decreases j,
{
    if j > 0 {
        lemma_depth_mirror(program, open, close, (j - 1) as nat);
        assert(Bracket::LBracket.position(open, close - open + 1 - j) == Bracket::RBracket.position(
            close,
            j - 1,
        ));
    }
}

/// The two directions agree: the scan forward from `open` finds `close`
/// exactly when the scan backward from `close` finds `open`.
pub proof fn lemma_boundary_symmetric(program: Seq<char>, open: int, close: int)
    ensures
        is_boundary(program, Bracket::LBracket, open, close) <==> is_boundary(
            program,
            Bracket::RBracket,
            close,
            open,
        ),
        boundary(program, Bracket::LBracket, open) == Some(close) <==> boundary(
            program,
            Bracket::RBracket,
            close,
        ) == Some(open),
{
    let n = close - open;
    if n >= 0 {
        assert forall|k: nat| k <= n + 1 implies depth(program, Bracket::RBracket, close, k)
            == depth(program, Bracket::LBracket, open, (n + 1 - k) as nat) - depth(
            program,
            Bracket::LBracket,
            open,
            (n + 1) as nat,
        ) by {
            lemma_depth_mirror(program, open, close, k);
        }
        assert(depth(program, Bracket::RBracket, close, (n + 1) as nat) == -depth(
            program,
            Bracket::LBracket,
            open,
            (n + 1) as nat,
        ));
        if is_boundary(program, Bracket::RBracket, close, open) {
            assert forall|k: nat| 1 <= k <= n implies depth(program, Bracket::LBracket, open, k)
                > 0 by {
                assert(depth(program, Bracket::RBracket, close, (n + 1 - k) as nat) > 0);
            }
        }
    }
    if is_boundary(program, Bracket::LBracket, open, close) {
        lemma_boundary_unique(program, Bracket::LBracket, open, close);
        lemma_boundary_unique(program, Bracket::RBracket, close, open);
    }
}

/// Every bracket of `program` has a partner: read from the first character
/// on, the depth never falls below zero, and it is zero at the end.
pub open spec fn balanced(program: Seq<char>) -> bool {
    &&& depth(program, Bracket::LBracket, 0, program.len()) == 0
    &&& forall|k: nat| k <= program.len() ==> depth(program, Bracket::LBracket, 0, k) >= 0
}

/// The depth of a forward scan from `from` is the depth from the first
/// character on, less what had been reached before `from`.
proof fn lemma_depth_from_start(program: Seq<char>, from: nat, n: nat)
    ensures
        depth(program, Bracket::LBracket, from as int, n) == depth(
            program,
            Bracket::LBracket,
            0,
            from + n,
        ) - depth(program, Bracket::LBracket, 0, from),
    decreases n,
{
    if n > 0 {
        lemma_depth_from_start(program, from, (n - 1) as nat);
    }
}

/// A scan whose depth is positive after `k` characters and not positive after
/// `limit` of them finds its boundary in between.
proof fn lemma_first_return(program: Seq<char>, b: Bracket, from: int, k: nat, limit: nat) -> (at:
    int)
    requires
        0 <= from < program.len(),
        1 <= k < limit,
        0 <= b.position(from, limit - 1) < program.len(),
        forall|j: nat| 1 <= j <= k ==> depth(program, b, from, j) > 0,
        depth(program, b, from, limit) <= 0,
    ensures
        is_boundary(program, b, from, at),
        b.distance(from, at) >= k,
    decreases limit - k,
{
    if depth(program, b, from, k + 1) <= 0 {
        let at = b.position(from, k as int);
        assert(b.distance(from, at) == k);
        assert(depth(program, b, from, k) > 0);
        assert(depth(program, b, from, k + 1) == 0);
        at
    } else {
        lemma_first_return(program, b, from, k + 1, limit)
    }
}

/// In a balanced program the scan forward from a `[` finds a `]`, and the
/// scan backward from that `]` finds the `[` again.
pub proof fn lemma_balanced_opening(program: Seq<char>, open: int) -> (close: int)
    requires
        balanced(program),
        0 <= open < program.len(),
        program[open] == '[',
    ensures
        boundary(program, Bracket::LBracket, open) == Some(close),
        program[close] == ']',
        boundary(program, Bracket::RBracket, close) == Some(open),
{
    let limit = (program.len() - open) as nat;
    lemma_depth_from_start(program, open as nat, limit);
    assert(depth(program, Bracket::LBracket, open, 1) == 1) by {
        reveal_with_fuel(depth, 2);
    }
    let close = lemma_first_return(program, Bracket::LBracket, open, 1, limit);
    lemma_boundary_unique(program, Bracket::LBracket, open, close);
    lemma_boundary_symmetric(program, open, close);
    assert(depth(program, Bracket::LBracket, open, (close - open) as nat) > 0);
    close
}

/// In a balanced program the scan backward from a `]` finds a `[`, and the
/// scan forward from that `[` finds the `]` again.
pub proof fn lemma_balanced_closing(program: Seq<char>, close: int) -> (open: int)
    requires
        balanced(program),
        0 <= close < program.len(),
        program[close] == ']',
    ensures
        boundary(program, Bracket::RBracket, close) == Some(open),
        program[open] == '[',
        boundary(program, Bracket::LBracket, open) == Some(close),
{
    let limit = (close + 1) as nat;
    lemma_depth_mirror(program, 0, close, limit);
    assert(depth(program, Bracket::RBracket, close, 1) == 1) by {
        reveal_with_fuel(depth, 2);
    }
    let open = lemma_first_return(program, Bracket::RBracket, close, 1, limit);
    lemma_boundary_unique(program, Bracket::RBracket, close, open);
    lemma_boundary_symmetric(program, open, close);
    assert(depth(program, Bracket::RBracket, close, (close - open) as nat) > 0);
    open
}

/// Between a `[` and a `]` with no bracket in between, the depth of the
/// forward scan from the `[` stays at one.
proof fn lemma_depth_without_brackets(program: Seq<char>, open: int, close: int, n: nat)
    requires
        0 <= open < close < program.len(),
        program[open] == '[',
        forall|i: int| open < i < close ==> program[i] != '[' && program[i] != ']',
        1 <= n <= close - open,
    ensures
        depth(program, Bracket::LBracket, open, n) == 1,
    decreases n,
{
    if n > 1 {
        lemma_depth_without_brackets(program, open, close, (n - 1) as nat);
    } else {
        assert(depth(program, Bracket::LBracket, open, 0) == 0);
    }
}

/// A `[` and a `]` with no bracket in between are each other's partners.
pub proof fn lemma_innermost_pair(program: Seq<char>, open: int, close: int)
    requires
        0 <= open < close < program.len(),
        program[open] == '[',
        program[close] == ']',
        forall|i: int| open < i < close ==> program[i] != '[' && program[i] != ']',
    ensures
        boundary(program, Bracket::LBracket, open) == Some(close),
        boundary(program, Bracket::RBracket, close) == Some(open),
{
    assert forall|k: nat| 1 <= k <= close - open implies depth(
        program,
        Bracket::LBracket,
        open,
        k,
    ) == 1 by {
        lemma_depth_without_brackets(program, open, close, k);
    }
    assert(depth(program, Bracket::LBracket, open, (close - open) as nat) == 1);
    assert(is_boundary(program, Bracket::LBracket, open, close));
    lemma_boundary_unique(program, Bracket::LBracket, open, close);
    lemma_boundary_symmetric(program, open, close);
}

/// A `[` with no `]` anywhere behind it has no partner.
pub proof fn lemma_unclosed_bracket(program: Seq<char>, from: int)
    requires
        0 <= from < program.len(),
        program[from] == '[',
        forall|i: int| from < i < program.len() ==> program[i] != ']',
    ensures
        boundary(program, Bracket::LBracket, from).is_none(),
{
    let rest = (program.len() - from) as nat;
    assert forall|k: nat| 1 <= k <= rest implies depth(program, Bracket::LBracket, from, k)
        > 0 by {
        lemma_depth_without_closing(program, from, k);
    }
    lemma_scan_fails(program, Bracket::LBracket, from, rest);
}

/// Behind a `[` the depth of a forward scan stays positive for as long as
/// the scan meets no `]`.
proof fn lemma_depth_without_closing(program: Seq<char>, from: int, n: nat)
    requires
        0 <= from < program.len(),
        program[from] == '[',
        forall|i: int| from < i < program.len() ==> program[i] != ']',
        1 <= n <= program.len() - from,
    ensures
        depth(program, Bracket::LBracket, from, n) >= 1,
    decreases n,
{
    if n > 1 {
        lemma_depth_without_closing(program, from, (n - 1) as nat);
    } else {
        assert(depth(program, Bracket::LBracket, from, 0) == 0);
    }
}

/// Finds the partner of the bracket at `ins_ptr`: the first position, going
/// from `ins_ptr` in the direction that `b` gives, at which the nesting depth
/// is back at zero. There is none where the depth falls below zero first, or
/// where the scan leaves the program first.
pub fn matching_closing_bracket_ptr(insts: &[char], ins_ptr: usize, b: Bracket) -> (res: Result<
    usize,
    BrainLuckError,
>)
    ensures
        match res {
            Ok(at) => boundary(insts@, b, ins_ptr as int) == Some(at as int),
            Err(e) => e == BrainLuckError::UnbalancedBrackets && boundary(
                insts@,
                b,
                ins_ptr as int,
            ).is_none(),
        },
{
    let mut counter: usize = 0;
    let mut ptr: usize = ins_ptr;
    let ghost mut seen: nat = 0;
    loop
        invariant
            ptr as int == b.position(ins_ptr as int, seen as int),
            counter as int == depth(insts@, b, ins_ptr as int, seen),
            counter <= seen,
            seen > 0 ==> ins_ptr < insts.len(),
            b is LBracket && seen > 0 ==> ptr <= insts.len(),
            forall|k: nat| 1 <= k <= seen ==> depth(insts@, b, ins_ptr as int, k) > 0,
        decreases insts.len() + ins_ptr - seen,
    {
        if ptr >= insts.len() {
            proof {
                lemma_scan_fails(insts@, b, ins_ptr as int, seen);
            }
            return Err(BrainLuckError::UnbalancedBrackets);
        }
        let c = insts[ptr];
        let opens = match b {
            Bracket::LBracket => c == '[',
            Bracket::RBracket => c == ']',
        };
        let closes = match b {
            Bracket::LBracket => c == ']',
            Bracket::RBracket => c == '[',
        };
        assert(depth(insts@, b, ins_ptr as int, seen + 1) == counter + b.weight(c));
        if opens {
            counter = counter + 1;
        } else if closes {
            if counter == 0 {
                proof {
                    lemma_scan_fails(insts@, b, ins_ptr as int, seen);
                }
                return Err(BrainLuckError::UnbalancedBrackets);
            }
            counter = counter - 1;
        }
        if counter == 0 {
            proof {
                assert(b.distance(ins_ptr as int, ptr as int) == seen);
                assert(is_boundary(insts@, b, ins_ptr as int, ptr as int));
                lemma_boundary_unique(insts@, b, ins_ptr as int, ptr as int);
            }
            return Ok(ptr);
        }
        match b {
            Bracket::LBracket => {
                ptr = ptr + 1;
            },
            Bracket::RBracket => {
                if ptr == 0 {
                    proof {
                        lemma_scan_fails(insts@, b, ins_ptr as int, seen + 1);
                    }
                    return Err(BrainLuckError::UnbalancedBrackets);
                }
                ptr = ptr - 1;
            },
        }
        proof {
            seen = seen + 1;
        }
    }
}

} // verus!
