//! The locals and the instructions of a function body.

use vstd::prelude::*;
use crate::leb;
use crate::reader;
use crate::tree;
use crate::tree::Inst;
use crate::types::{views, MigrateError};

verus! {

/// A run of local variables of one type.
pub struct LocalGroup {
    pub count: u32,
    /// The encoding of the type.
    pub ty: Vec<u8>,
}

impl View for LocalGroup {
    type V = (u32, Seq<u8>);

    open spec fn view(&self) -> (u32, Seq<u8>) {
        (self.count, self.ty@)
    }
}

/// The `count` runs of locals that are declared from `pos` on, and the position
/// behind them.
pub open spec fn groups_from(body: Seq<u8>, pos: int, count: nat) -> Result<
    (Seq<(u32, Seq<u8>)>, int),
    MigrateError,
>
    decreases count,
{
    if count == 0 {
        Ok((Seq::empty(), pos))
    } else {
        match leb::decoded_u32(body, pos) {
            None => Err(MigrateError::Parse),
            Some((number, ty_pos)) => match reader::val_type_at(body, ty_pos) {
                None => Err(MigrateError::Parse),
                Some((ty, next)) => match groups_from(body, next, (count - 1) as nat) {
                    Err(error) => Err(error),
                    Ok((rest, end)) => Ok((seq![(number, ty)] + rest, end)),
                },
            },
        }
    }
}

/// The runs of locals that a function body declares, and the position of its
/// first instruction.
pub open spec fn declared_groups(body: Seq<u8>) -> Result<
    (Seq<(u32, Seq<u8>)>, int),
    MigrateError,
> {
    match leb::decoded_u32(body, 0) {
        None => Err(MigrateError::Parse),
        Some((count, pos)) => groups_from(body, pos, count as nat),
    }
}

/// The outcome of reading on, with what was read before put in front.
pub open spec fn after(
    done: Seq<(u32, Seq<u8>)>,
    rest: Result<(Seq<(u32, Seq<u8>)>, int), MigrateError>,
) -> Result<(Seq<(u32, Seq<u8>)>, int), MigrateError> {
    match rest {
        Err(error) => Err(error),
        Ok((groups, end)) => Ok((done + groups, end)),
    }
}

/// Reads the locals that a function body declares, and finds its first
/// instruction.
pub fn read_locals(body: &[u8]) -> (found: Result<(Vec<LocalGroup>, usize), MigrateError>)
    ensures
        match (found, declared_groups(body@)) {
            (Ok((groups, end)), Ok((view, pos))) => views(groups@) == view && end == pos && end
                <= body@.len(),
            (Err(error), Err(expected)) => error == expected,
            _ => false,
        },
{
    let (count, start) = match reader::read_var_u32(body, 0) {
        Ok(found) => found,
        Err(_) => return Err(MigrateError::Parse),
    };
    proof {
        leb::lemma_decoded_bounds(body@, 0, 5);
    }
    let mut groups: Vec<LocalGroup> = Vec::new();
    let mut pos: usize = start;
    let mut left: u32 = count;
    assert(views(groups@) =~= Seq::empty());
    assert(after(Seq::empty(), groups_from(body@, pos as int, left as nat)) == groups_from(
        body@,
        pos as int,
        left as nat,
    )) by {
        if let Ok((rest, _)) = groups_from(body@, pos as int, left as nat) {
            assert(Seq::empty() + rest =~= rest);
        }
    }
    while left > 0
        invariant
            pos <= body@.len(),
            after(views(groups@), groups_from(body@, pos as int, left as nat)) == declared_groups(
                body@,
            ),
        decreases left,
    {
        let ghost done = views(groups@);
        let (number, ty_pos) = match reader::read_var_u32(body, pos) {
            Ok(found) => found,
            Err(_) => return Err(MigrateError::Parse),
        };
        proof {
            leb::lemma_decoded_bounds(body@, pos as int, 5);
        }
        let (ty, next) = match reader::read_val_type(body, ty_pos) {
            Ok(found) => found,
            Err(_) => return Err(MigrateError::Parse),
        };
        let group = LocalGroup { count: number, ty };
        let ghost view = group@;
        groups.push(group);
        proof {
            assert(views(groups@) =~= done.push(view));
            if let Ok((rest, _)) = groups_from(body@, next as int, (left - 1) as nat) {
                assert(done + (seq![view] + rest) =~= done.push(view) + rest);
            }
        }
        pos = next;
        left = left - 1;
    }
    assert(views(groups@) + Seq::empty() =~= views(groups@));
    Ok((groups, pos))
}

/// The instructions of a function body from `pos` on.
pub open spec fn insts_from(body: Seq<u8>, pos: int) -> Result<Seq<Inst>, MigrateError>
    decreases body.len() - pos,
{
    if pos >= body.len() {
        Ok(Seq::empty())
    } else {
        match reader::operator_at(body, pos) {
            None => Err(MigrateError::Parse),
            Some((op, next)) => if pos < next <= body.len() {
                match insts_from(body, next) {
                    Err(error) => Err(error),
                    Ok(rest) => Ok(seq![Inst { pos: pos as usize, op }] + rest),
                }
            } else {
                Err(MigrateError::Parse)
            },
        }
    }
}

/// The instructions of a function body, which come behind its locals.
pub open spec fn instructions(body: Seq<u8>) -> Result<Seq<Inst>, MigrateError> {
    match declared_groups(body) {
        Err(error) => Err(error),
        Ok((_, pos)) => insts_from(body, pos),
    }
}

/// The instructions come in the order of their positions, all of which lie
/// from `pos` on inside the body.
pub proof fn lemma_insts_ordered(body: Seq<u8>, pos: int)
    requires
        0 <= pos,
        body.len() <= usize::MAX,
    ensures
        insts_from(body, pos) matches Ok(insts) ==> tree::ordered(insts) && forall|i: int|
            0 <= i < insts.len() ==> pos <= (#[trigger] insts[i]).pos < body.len(),
    decreases body.len() - pos,
{
    if pos < body.len() {
        if let Some((op, next)) = reader::operator_at(body, pos) {
            if pos < next <= body.len() {
                lemma_insts_ordered(body, next);
                if let Ok(rest) = insts_from(body, next) {
                    let insts = seq![Inst { pos: pos as usize, op }] + rest;
                    assert forall|i: int| 0 <= i < insts.len() implies pos <= (#[trigger] insts[i]).pos
                        < body.len() by {
                        if i > 0 {
                            assert(insts[i] == rest[i - 1]);
                        }
                    }
                    assert forall|i: int, j: int| 0 <= i < j < insts.len() implies #[trigger] insts[i].pos
                        < #[trigger] insts[j].pos by {
                        assert(insts[j] == rest[j - 1]);
                        if i > 0 {
                            assert(insts[i] == rest[i - 1]);
                        }
                    }
                }
            }
        }
    }
}

/// Reads the instructions from `start` on.
pub fn read_insts_from(body: &[u8], start: usize) -> (found: Result<Vec<Inst>, MigrateError>)
    ensures
        match (found, insts_from(body@, start as int)) {
            (Ok(insts), Ok(view)) => insts@ == view && tree::ordered(insts@) && forall|i: int|
                0 <= i < insts@.len() ==> (#[trigger] insts@[i]).pos < body@.len(),
            (Err(error), Err(expected)) => error == expected,
            _ => false,
        },
{
    let len: usize = body.len();
    let mut insts: Vec<Inst> = Vec::new();
    let mut pos: usize = start;
    proof {
        lemma_insts_ordered(body@, start as int);
        if let Ok(rest) = insts_from(body@, pos as int) {
            assert(insts@ + rest =~= rest);
        }
    }
    while pos < len
        invariant
            start <= pos,
            pos <= len || pos == start,
            len == body@.len(),
            match (insts_from(body@, pos as int), insts_from(body@, start as int)) {
                (Ok(rest), Ok(view)) => insts@ + rest == view,
                (Err(error), Err(expected)) => error == expected,
                _ => false,
            },
        decreases len - pos,
    {
        let ghost done = insts@;
        let (op, next) = match reader::read_operator(body, pos) {
            Ok(found) => found,
            Err(_) => return Err(MigrateError::Parse),
        };
        insts.push(Inst { pos, op });
        proof {
            if let Ok(rest) = insts_from(body@, next as int) {
                assert(done + (seq![Inst { pos, op }] + rest) =~= insts@ + rest);
            }
        }
        pos = next;
    }
    assert(insts@ + Seq::empty() =~= insts@);
    Ok(insts)
}

/// Reads the instructions of a function body.
pub fn read_instructions(body: &[u8]) -> (found: Result<Vec<Inst>, MigrateError>)
    ensures
        match (found, instructions(body@)) {
            (Ok(insts), Ok(view)) => insts@ == view && tree::ordered(insts@) && forall|i: int|
                0 <= i < insts@.len() ==> (#[trigger] insts@[i]).pos < body@.len(),
            (Err(error), Err(expected)) => error == expected,
            _ => false,
        },
{
    match read_locals(body) {
        Ok((_, start)) => read_insts_from(body, start),
        Err(error) => Err(error),
    }
}

/// Instructions follow one another in a body from `pos` on: the first stands there, each
/// is what is read at its position, and the next one stands where it ends.
pub open spec fn follow_one_another(body: Seq<u8>, pos: int, insts: Seq<Inst>) -> bool
    decreases insts.len(),
{
    if insts.len() == 0 {
        pos == body.len()
    } else {
        &&& insts[0].pos == pos
        &&& pos < body.len()
        &&& reader::operator_at(body, pos) matches Some(found) && found.0 == insts[0].op && pos
            < found.1 <= body.len() && follow_one_another(body, found.1, insts.drop_first())
    }
}

/// Instructions that follow one another up to the end of a body are read, and nothing else
/// is read.
pub proof fn law_reads_what_follows(body: Seq<u8>, pos: int, insts: Seq<Inst>)
    requires
        0 <= pos <= body.len() <= usize::MAX,
    ensures
        follow_one_another(body, pos, insts) == (insts_from(body, pos) == Ok::<
            Seq<Inst>,
            MigrateError,
        >(insts)),
        insts_from(body, pos) matches Err(error) ==> error == MigrateError::Parse,
    decreases body.len() - pos,
{
    if pos < body.len() {
        if let Some((op, next)) = reader::operator_at(body, pos) {
            if pos < next <= body.len() {
                let first = Inst { pos: pos as usize, op };
                law_reads_what_follows(body, next, insts.drop_first());
                if follow_one_another(body, pos, insts) {
                    assert(seq![first] + insts.drop_first() =~= insts);
                }
                if insts_from(body, pos) is Ok && insts_from(body, pos)->Ok_0 == insts {
                    let rest = insts_from(body, next)->Ok_0;
                    assert(insts.drop_first() =~= rest);
                }
            }
        }
    } else if insts.len() == 0 {
        assert(insts =~= Seq::empty());
    }
}

/// Runs of locals follow one another in a body from `pos` to `end`: each is a number and a
/// type, and the next one stands where it ends.
pub open spec fn runs_follow(body: Seq<u8>, pos: int, runs: Seq<(u32, Seq<u8>)>, end: int) -> bool
    decreases runs.len(),
{
    if runs.len() == 0 {
        pos == end
    } else {
        &&& leb::decoded_u32(body, pos) matches Some(number)
        &&& number.0 == runs[0].0
        &&& reader::val_type_at(body, number.1) matches Some(ty)
        &&& ty.0 == runs[0].1
        &&& runs_follow(body, ty.1, runs.drop_first(), end)
    }
}

/// Runs are read exactly if they follow one another.
proof fn lemma_runs_follow(body: Seq<u8>, pos: int, runs: Seq<(u32, Seq<u8>)>, end: int)
    ensures
        runs_follow(body, pos, runs, end) == (groups_from(body, pos, runs.len()) == Ok::<
            (Seq<(u32, Seq<u8>)>, int),
            MigrateError,
        >((runs, end))),
    decreases runs.len(),
{
    if runs.len() == 0 {
        assert(runs =~= Seq::empty());
    } else if let Some((number, at)) = leb::decoded_u32(body, pos) {
        if let Some((ty, next)) = reader::val_type_at(body, at) {
            let rest = runs.drop_first();
            lemma_runs_follow(body, next, rest, end);
            if runs_follow(body, pos, runs, end) {
                assert(seq![(number, ty)] + rest =~= runs);
            }
            if let Ok((found, last)) = groups_from(body, next, rest.len()) {
                if seq![(number, ty)] + found == runs {
                    assert(rest =~= found);
                    assert((seq![(number, ty)] + found)[0] == runs[0]);
                }
            }
        }
    }
}

/// The locals of a body are those runs that follow one another behind their number, and
/// the instructions come behind the last one.
pub proof fn law_reads_runs(body: Seq<u8>, runs: Seq<(u32, Seq<u8>)>, end: int)
    ensures
        (declared_groups(body) == Ok::<(Seq<(u32, Seq<u8>)>, int), MigrateError>((runs, end))) == (
        leb::decoded_u32(body, 0) matches Some(number) && number.0 == runs.len() && runs_follow(
            body,
            number.1,
            runs,
            end,
        )),
        declared_groups(body) matches Err(error) ==> error == MigrateError::Parse,
        declared_groups(body) matches Ok(found) ==> instructions(body) == insts_from(body, found.1),
{
    if let Some((count, pos)) = leb::decoded_u32(body, 0) {
        lemma_runs_follow(body, pos, runs, end);
        lemma_group_count(body, pos, count as nat);
    }
}

/// As many runs are read as are asked for.
proof fn lemma_group_count(body: Seq<u8>, pos: int, count: nat)
    ensures
        groups_from(body, pos, count) matches Ok(found) ==> found.0.len() == count,
        groups_from(body, pos, count) matches Err(error) ==> error == MigrateError::Parse,
    decreases count,
{
    if count > 0 {
        if let Some((number, at)) = leb::decoded_u32(body, pos) {
            if let Some((ty, next)) = reader::val_type_at(body, at) {
                lemma_group_count(body, next, (count - 1) as nat);
            }
        }
    }
}

} // verus!
