use vstd::prelude::*;
use crate::types::{BrainCommand, BrainError};

verus! {

/// The characters that stand for instructions; every other character of the
/// source is a comment.
pub open spec fn is_command(c: char) -> bool {
    c == '>' || c == '<' || c == '+' || c == '-' || c == '.' || c == ',' || c == '[' || c == ']'
}

/// Whether the source holds at least one instruction character.
pub open spec fn has_command(s: Seq<char>) -> bool {
    exists|i: int| 0 <= i < s.len() && is_command(#[trigger] s[i])
}

/// The instruction that a non-bracket instruction character stands for.
pub open spec fn simple_command(c: char) -> BrainCommand {
    if c == '>' {
        BrainCommand::MoveRight
    } else if c == '<' {
        BrainCommand::MoveLeft
    } else if c == '+' {
        BrainCommand::Increment
    } else if c == '-' {
        BrainCommand::Decrement
    } else if c == '.' {
        BrainCommand::Output
    } else {
        BrainCommand::Input
    }
}

/// Number of `[` minus number of `]` in `s`.
pub open spec fn bracket_depth(s: Seq<char>) -> int
    decreases s.len(),
{
    if s.len() == 0 {
        0
    } else {
        bracket_depth(s.drop_last()) + if s.last() == '[' {
            1int
        } else if s.last() == ']' {
            -1int
        } else {
            0int
        }
    }
}

/// Some `]` of `s` closes no earlier `[`.
pub open spec fn has_unmatched_close(s: Seq<char>) -> bool {
    exists|i: int| 0 <= i <= s.len() && bracket_depth(#[trigger] s.take(i)) < 0
}

/// The brackets of `s` are balanced and well nested.
pub open spec fn balanced(s: Seq<char>) -> bool {
    &&& forall|i: int| 0 <= i <= s.len() ==> bracket_depth(#[trigger] s.take(i)) >= 0
    &&& bracket_depth(s) == 0
}

/// The left-to-right pass over the source: the instructions emitted so far and
/// the positions of the `[` that are still open, innermost last. `None` once a
/// `]` has no `[` to close. A closed pair is linked both ways: the `[` holds
/// the position of its `]` and the `]` that of its `[`.
pub open spec fn scan(s: Seq<char>) -> Option<(Seq<BrainCommand>, Seq<usize>)>
    decreases s.len(),
{
    if s.len() == 0 {
        Some((Seq::empty(), Seq::empty()))
    } else {
        match scan(s.drop_last()) {
            None => None,
            Some((p, open)) => {
                let c = s.last();
                let n = p.len() as usize;
                if c == '[' {
                    Some((p.push(BrainCommand::JumpForward(None)), open.push(n)))
                } else if c == ']' {
                    if open.len() == 0 {
                        None
                    } else {
                        let i = open.last();
                        Some(
                            (
                                p.update(i as int, BrainCommand::JumpForward(Some(n))).push(
                                    BrainCommand::JumpBackward(Some(i)),
                                ),
                                open.drop_last(),
                            ),
                        )
                    }
                } else if is_command(c) {
                    Some((p.push(simple_command(c)), open))
                } else {
                    Some((p, open))
                }
            },
        }
    }
}

/// A jump instruction whose target is missing.
pub open spec fn is_unresolved(c: BrainCommand) -> bool {
    c == BrainCommand::JumpForward(None) || c == BrainCommand::JumpBackward(None)
}

/// Every jump instruction of `p` carries a target.
pub open spec fn all_resolved(p: Seq<BrainCommand>) -> bool {
    forall|k: int| 0 <= k < p.len() ==> !is_unresolved(#[trigger] p[k])
}

/// Every jump instruction of `p` carries a target inside `p`.
pub open spec fn valid_program(p: Seq<BrainCommand>) -> bool {
    forall|k: int|
        0 <= k < p.len() ==> match #[trigger] p[k] {
            BrainCommand::JumpForward(t) => t is Some && t->0 < p.len(),
            BrainCommand::JumpBackward(t) => t is Some && t->0 < p.len(),
            _ => true,
        }
}

/// Each `[` jumps to a later `]` that jumps back to it, and each `]` to an
/// earlier `[` that jumps forward to it.
pub open spec fn jumps_paired(p: Seq<BrainCommand>) -> bool {
    forall|k: int|
        0 <= k < p.len() ==> match #[trigger] p[k] {
            BrainCommand::JumpForward(Some(t)) => k < t < p.len() && p[t as int]
                == BrainCommand::JumpBackward(Some(k as usize)),
            BrainCommand::JumpBackward(Some(t)) => t < k && p[t as int]
                == BrainCommand::JumpForward(Some(k as usize)),
            _ => true,
        }
}

/// What compiling the source `s` gives.
pub open spec fn compiled(s: Seq<char>) -> Result<Seq<BrainCommand>, BrainError> {
    if !has_command(s) {
        Err(BrainError::ParseError)
    } else {
        match scan(s) {
            None => Err(BrainError::ParseError),
            Some((p, _)) => if all_resolved(p) {
                Ok(p)
            } else {
                Err(BrainError::ParseError)
            },
        }
    }
}

/// Shape of a partial pass: the open positions point at unresolved `[`, every
/// unresolved `[` is open, innermost last, every `]` is resolved, and closed
/// pairs are linked.
pub open spec fn scan_shape(p: Seq<BrainCommand>, open: Seq<usize>) -> bool {
    &&& forall|j: int|
        0 <= j < open.len() ==> #[trigger] open[j] < p.len() && p[open[j] as int]
            == BrainCommand::JumpForward(None)
    &&& forall|k: int|
        0 <= k < p.len() && #[trigger] p[k] == BrainCommand::JumpForward(None) ==> open.contains(
            k as usize,
        )
    &&& forall|k: int| 0 <= k < p.len() ==> #[trigger] p[k] != BrainCommand::JumpBackward(None)
    &&& forall|j1: int, j2: int| 0 <= j1 < j2 < open.len() ==> #[trigger] open[j1] < #[trigger] open[j2]
    &&& jumps_paired(p)
}

/// Every partial pass has the shape `scan_shape`, and as many open
/// positions as the depth of its brackets.
pub proof fn lemma_scan_shape(s: Seq<char>)
    requires
        s.len() <= usize::MAX,
    ensures
        scan(s) matches Some((p, open)) ==> scan_shape(p, open) && open.len() == bracket_depth(s)
            && p.len() <= s.len(),
    decreases s.len(),
{
    if s.len() > 0 {
        lemma_scan_shape(s.drop_last());
        if let Some((p, open)) = scan(s.drop_last()) {
            let c = s.last();
            let n = p.len() as usize;
            assert(n == p.len());
            if c == '[' {
                let p_next = p.push(BrainCommand::JumpForward(None));
                let open_next = open.push(n);
                assert forall|k: int|
                    0 <= k < p_next.len() && #[trigger] p_next[k] == BrainCommand::JumpForward(
                        None,
                    ) implies open_next.contains(k as usize) by {
                    if k < p.len() {
                        assert(open.contains(k as usize));
                        let j = choose|j: int| 0 <= j < open.len() && open[j] == k as usize;
                        assert(open_next[j] == k as usize);
                    } else {
                        assert(open_next[open.len() as int] == k as usize);
                    }
                }
                assert(jumps_paired(p_next)) by {
                    assert forall|k: int| 0 <= k < p_next.len() implies match #[trigger] p_next[k] {
                        BrainCommand::JumpForward(Some(t)) => k < t < p_next.len() && p_next[t as int]
                            == BrainCommand::JumpBackward(Some(k as usize)),
                        BrainCommand::JumpBackward(Some(t)) => t < k && p_next[t as int]
                            == BrainCommand::JumpForward(Some(k as usize)),
                        _ => true,
                    } by {
                        if k < p.len() {
                            assert(p_next[k] == p[k]);
                        }
                    }
                }
            } else if c == ']' {
                if open.len() > 0 {
                    let i = open.last();
                    let p_linked = p.update(i as int, BrainCommand::JumpForward(Some(n)));
                    let p_next = p_linked.push(BrainCommand::JumpBackward(Some(i)));
                    let open_next = open.drop_last();
                    assert(p[i as int] == BrainCommand::JumpForward(None));
                    assert forall|j: int| 0 <= j < open_next.len() implies #[trigger] open_next[j]
                        < p_next.len() && p_next[open_next[j] as int] == BrainCommand::JumpForward(None) by {
                        assert(open_next[j] == open[j]);
                        assert(open[j] < p.len() && p[open[j] as int]
                            == BrainCommand::JumpForward(None));
                        assert(open[j] < open[open.len() - 1]);
                    }
                    assert forall|k: int|
                        0 <= k < p_next.len() && #[trigger] p_next[k] == BrainCommand::JumpForward(
                            None,
                        ) implies open_next.contains(k as usize) by {
                        assert(k < p.len() && k != i);
                        assert(p[k] == BrainCommand::JumpForward(None));
                        assert(open.contains(k as usize));
                        let j = choose|j: int| 0 <= j < open.len() && open[j] == k as usize;
                        assert(j != open.len() - 1);
                        assert(open_next[j] == k as usize);
                    }
                    assert(jumps_paired(p_next)) by {
                        assert forall|k: int| 0 <= k < p_next.len() implies match #[trigger] p_next[k] {
                            BrainCommand::JumpForward(Some(t)) => k < t < p_next.len() && p_next[t as int]
                                == BrainCommand::JumpBackward(Some(k as usize)),
                            BrainCommand::JumpBackward(Some(t)) => t < k && p_next[t as int]
                                == BrainCommand::JumpForward(Some(k as usize)),
                            _ => true,
                        } by {
                            if k < p.len() && k != i {
                                assert(p_next[k] == p[k]);
                                match p[k] {
                                    BrainCommand::JumpForward(Some(t)) => {
                                        assert(p[t as int] == BrainCommand::JumpBackward(
                                            Some(k as usize),
                                        ));
                                    },
                                    BrainCommand::JumpBackward(Some(t)) => {
                                        assert(p[t as int] == BrainCommand::JumpForward(
                                            Some(k as usize),
                                        ));
                                    },
                                    _ => {},
                                }
                            }
                        }
                    }
                    assert(p_next[i as int] == BrainCommand::JumpForward(Some(n)));
                    assert(scan_shape(p_next, open_next));
                }
            } else if is_command(c) {
                let p_next = p.push(simple_command(c));
                assert(jumps_paired(p_next)) by {
                    assert forall|k: int| 0 <= k < p_next.len() implies match #[trigger] p_next[k] {
                        BrainCommand::JumpForward(Some(t)) => k < t < p_next.len() && p_next[t as int]
                            == BrainCommand::JumpBackward(Some(k as usize)),
                        BrainCommand::JumpBackward(Some(t)) => t < k && p_next[t as int]
                            == BrainCommand::JumpForward(Some(k as usize)),
                        _ => true,
                    } by {
                        if k < p.len() {
                            assert(p_next[k] == p[k]);
                        }
                    }
                }
                assert forall|k: int|
                    0 <= k < p_next.len() && #[trigger] p_next[k] == BrainCommand::JumpForward(
                        None,
                    ) implies open.contains(k as usize) by {
                    assert(k < p.len());
                    assert(p[k] == p_next[k]);
                }
            }
        }
    }
}

/// Once a prefix of the source has an unmatched `]`, so has the whole.
pub proof fn lemma_scan_prefix_fails(s: Seq<char>, i: int)
    requires
        0 <= i <= s.len(),
        scan(s.take(i)) is None,
    ensures
        scan(s) is None,
    decreases s.len(),
{
    if i == s.len() {
        assert(s.take(i) =~= s);
    } else {
        assert(s.take(i) =~= s.drop_last().take(i));
        lemma_scan_prefix_fails(s.drop_last(), i);
    }
}

/// The pass fails exactly on a source with an unmatched `]`.
pub proof fn lemma_scan_fails_iff_unmatched(s: Seq<char>)
    requires
        s.len() <= usize::MAX,
    ensures
        scan(s) is None <==> has_unmatched_close(s),
    decreases s.len(),
{
    if s.len() == 0 {
        assert(bracket_depth(s.take(0)) == 0) by {
            assert(s.take(0).len() == 0);
        }
        assert(!has_unmatched_close(s));
    } else {
        let s0 = s.drop_last();
        lemma_scan_fails_iff_unmatched(s0);
        lemma_scan_shape(s0);
        assert(s.take(s.len() as int) =~= s);
        if scan(s0) is None {
            let i = choose|i: int| 0 <= i <= s0.len() && bracket_depth(#[trigger] s0.take(i)) < 0;
            assert(s0.take(i) =~= s.take(i));
        } else if scan(s) is None {
            assert(bracket_depth(s) < 0);
        } else {
            assert forall|i: int| 0 <= i <= s.len() implies bracket_depth(#[trigger] s.take(i))
                >= 0 by {
                if i == s.len() {
                    lemma_scan_shape(s);
                } else {
                    assert(s0.take(i) =~= s.take(i));
                }
            }
        }
    }
}

/// A finished pass with a shape `scan_shape` has every jump resolved exactly
/// when no `[` is left open, and then every target lies in the program.
pub proof fn lemma_resolved_iff_closed(p: Seq<BrainCommand>, open: Seq<usize>)
    requires
        scan_shape(p, open),
    ensures
        all_resolved(p) <==> open.len() == 0,
        all_resolved(p) ==> valid_program(p),
{
    if open.len() > 0 {
        assert(is_unresolved(p[open[0] as int]));
    }
    if open.len() == 0 {
        assert forall|k: int| 0 <= k < p.len() implies !is_unresolved(#[trigger] p[k]) by {
            if p[k] == BrainCommand::JumpForward(None) {
                assert(open.contains(k as usize));
            }
        }
    }
    if all_resolved(p) {
        assert forall|k: int| 0 <= k < p.len() implies match #[trigger] p[k] {
            BrainCommand::JumpForward(t) => t is Some && t->0 < p.len(),
            BrainCommand::JumpBackward(t) => t is Some && t->0 < p.len(),
            _ => true,
        } by {
            assert(!is_unresolved(p[k]));
        }
    }
}

/// Compilation succeeds exactly on a source with at least one instruction
/// character and balanced, well-nested brackets; what it gives is then a
/// program whose jumps all have targets inside it and are linked in pairs.
pub proof fn lemma_compiled_ok_iff(s: Seq<char>)
    requires
        s.len() <= usize::MAX,
    ensures
        compiled(s) is Ok <==> has_command(s) && balanced(s),
        compiled(s) matches Ok(p) ==> valid_program(p) && jumps_paired(p),
{
    lemma_scan_fails_iff_unmatched(s);
    lemma_scan_shape(s);
    assert(s.take(s.len() as int) =~= s);
    if let Some((p, open)) = scan(s) {
        lemma_resolved_iff_closed(p, open);
    }
}

/// A source without any instruction character does not compile.
pub proof fn no_instructions_is_error(s: Seq<char>)
    requires
        forall|i: int| 0 <= i < s.len() ==> !is_command(#[trigger] s[i]),
    ensures
        compiled(s) == Err::<Seq<BrainCommand>, BrainError>(BrainError::ParseError),
{
}

/// A source with a `]` that closes no earlier `[` does not compile.
pub proof fn unmatched_close_is_error(s: Seq<char>)
    requires
        s.len() <= usize::MAX,
        has_unmatched_close(s),
    ensures
        compiled(s) == Err::<Seq<BrainCommand>, BrainError>(BrainError::ParseError),
{
    lemma_scan_fails_iff_unmatched(s);
}

/// A source with balanced, well-nested brackets and at least one instruction
/// character compiles, and every jump of the program has a target, so that
/// `validate` accepts it.
pub proof fn balanced_compiles_and_validates(s: Seq<char>)
    requires
        s.len() <= usize::MAX,
        balanced(s),
        has_command(s),
    ensures
        compiled(s) matches Ok(p) && all_resolved(p) && valid_program(p),
{
    lemma_compiled_ok_iff(s);
}

/// The instruction characters of `s`, in order.
pub open spec fn instructions(s: Seq<char>) -> Seq<char> {
    s.filter(|c: char| is_command(c))
}

/// A source has an instruction character when its last character is one, or
/// the rest has one.
pub proof fn lemma_has_command_last(s: Seq<char>)
    requires
        s.len() > 0,
    ensures
        has_command(s) == (has_command(s.drop_last()) || is_command(s.last())),
{
    let s0 = s.drop_last();
    if has_command(s) && !is_command(s.last()) {
        let i = choose|i: int| 0 <= i < s.len() && is_command(#[trigger] s[i]);
        assert(s0[i] == s[i]);
    }
    if has_command(s0) {
        let i = choose|i: int| 0 <= i < s0.len() && is_command(#[trigger] s0[i]);
        assert(s0[i] == s[i]);
    }
    if is_command(s.last()) {
        assert(is_command(s[s.len() - 1]));
    }
}

/// The pass sees the instruction characters only.
pub proof fn lemma_scan_ignores_comments(s: Seq<char>)
    ensures
        scan(s) == scan(instructions(s)),
        has_command(s) == has_command(instructions(s)),
    decreases s.len(),
{
    if s.len() > 0 {
        let s0 = s.drop_last();
        let f = instructions(s);
        lemma_scan_ignores_comments(s0);
        lemma_has_command_last(s);
        reveal(Seq::filter);
        assert(f == if is_command(s.last()) {
            instructions(s0).push(s.last())
        } else {
            instructions(s0)
        });
        if is_command(s.last()) {
            assert(f.drop_last() =~= instructions(s0));
            lemma_has_command_last(f);
        }
    }
}

/// Compiling depends on the instruction characters of the source alone: two
/// sources with the same instruction characters, and so one source compiled
/// twice, give the same instructions, or the same error.
pub proof fn compile_is_deterministic(s1: Seq<char>, s2: Seq<char>)
    requires
        instructions(s1) == instructions(s2),
    ensures
        compiled(s1) == compiled(s2),
{
    lemma_scan_ignores_comments(s1);
    lemma_scan_ignores_comments(s2);
}

/// Whether every jump instruction of `program` carries a target.
pub fn validate(program: &Vec<BrainCommand>) -> (r: bool)
    ensures
        r == all_resolved(program@),
{
    let mut i: usize = 0;
    while i < program.len()
        invariant
            i <= program.len(),
            forall|k: int| 0 <= k < i ==> !is_unresolved(#[trigger] program@[k]),
        decreases program.len() - i,
    {
        match program[i] {
            BrainCommand::JumpBackward(pos) | BrainCommand::JumpForward(pos) => {
                if pos.is_none() {
                    return false;
                }
            },
            _ => {},
        }
        i += 1;
    }
    true
}

/// Compiles source text into a program.
///
/// Characters other than `> < + - . , [ ]` are ignored. Each `[` is linked to
/// its matching `]` and back: a `JumpForward` holds the position of its
/// `JumpBackward`, and the `JumpBackward` that of its `JumpForward`. Fails with
/// `ParseError` when the source has no instruction character, when a `]` has no
/// `[` to close, and when a `[` is never closed.
pub fn compile(source: &str) -> (r: Result<Vec<BrainCommand>, BrainError>)
    requires
        source@.len() <= usize::MAX,
    ensures
        match r {
            Ok(p) => compiled(source@) == Ok::<Seq<BrainCommand>, BrainError>(p@),
            Err(e) => compiled(source@) == Err::<Seq<BrainCommand>, BrainError>(e),
        },
        r is Ok <==> has_command(source@) && balanced(source@),
        r matches Ok(p) ==> valid_program(p@) && jumps_paired(p@),
{
    let mut program: Vec<BrainCommand> = Vec::new();
    let mut open: Vec<usize> = Vec::new();
    let mut seen = false;
    for c in it: source.chars()
        invariant
            it.seq() == source@,
            source@.len() <= usize::MAX,
            scan(source@.take(it.index())) == Some((program@, open@)),
            seen == has_command(source@.take(it.index())),
    {
        let ghost before = source@.take(it.index());
        let ghost after = source@.take(it.index() + 1);
        assert(after.drop_last() =~= before);
        assert(after.last() == c);
        proof {
            lemma_scan_shape(before);
        }
        let pc = program.len();
        if c == '[' {
            open.push(pc);
            program.push(BrainCommand::JumpForward(None));
        } else if c == ']' {
            match open.pop() {
                Some(start) => {
                    program[start] = BrainCommand::JumpForward(Some(pc));
                    program.push(BrainCommand::JumpBackward(Some(start)));
                },
                None => {
                    proof {
                        lemma_scan_prefix_fails(source@, it.index() + 1);
                        lemma_compiled_ok_iff(source@);
                    }
                    return Err(BrainError::ParseError);
                },
            }
        } else if c == '>' {
            program.push(BrainCommand::MoveRight);
        } else if c == '<' {
            program.push(BrainCommand::MoveLeft);
        } else if c == '+' {
            program.push(BrainCommand::Increment);
        } else if c == '-' {
            program.push(BrainCommand::Decrement);
        } else if c == '.' {
            program.push(BrainCommand::Output);
        } else if c == ',' {
            program.push(BrainCommand::Input);
        }
        if is_command_char(c) {
            seen = true;
        }
        assert(scan(after) == Some((program@, open@)));
        assert(has_command(after) == (has_command(before) || is_command(c))) by {
            if is_command(c) {
                assert(after[after.len() - 1] == c);
            }
            if has_command(after) && !is_command(c) {
                let i = choose|i: int| 0 <= i < after.len() && is_command(#[trigger] after[i]);
                assert(before[i] == after[i]);
            }
            if has_command(before) {
                let i = choose|i: int| 0 <= i < before.len() && is_command(#[trigger] before[i]);
                assert(before[i] == after[i]);
            }
        }
    }
    assert(source@.take(source@.len() as int) =~= source@);
    proof {
        lemma_compiled_ok_iff(source@);
    }
    if !seen {
        return Err(BrainError::ParseError);
    }
    if validate(&program) {
        Ok(program)
    } else {
        Err(BrainError::ParseError)
    }
}

/// Whether `c` is one of the instruction characters.
pub fn is_command_char(c: char) -> (r: bool)
    ensures
        r == is_command(c),
{
    c == '>' || c == '<' || c == '+' || c == '-' || c == '.' || c == ',' || c == '[' || c == ']'
}

} // verus!
