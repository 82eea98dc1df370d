//! Conversion between polygons and path commands, in both directions.

use vstd::prelude::*;
use crate::path::{
    Command, CommandModel, CommandType, PathError, Token, commands_model, relative, lex, lex_from,
    group, group_from, lex_path, group_tokens, opcode_letter, opcode_type, digit_value,
    digits_value, is_separator, chars_of, lemma_digit_run_exact, number_token,
    thousandths,
};
use crate::vector::Vec2;

verus! {

/// The state of a pen that follows a path: its current point, the start of
/// the current subpath, the polygons closed so far and the vertices of the
/// polygon being drawn.
pub type Pen = (Vec2, Vec2, Seq<Seq<Vec2>>, Seq<Vec2>);

/// Where a pen starts.
pub open spec fn initial_pen() -> Pen {
    (Vec2 { x: 0, y: 0 }, Vec2 { x: 0, y: 0 }, seq![], seq![])
}

/// How many parameters make one step of a command.
pub open spec fn step_width(t: CommandType) -> nat {
    match t {
        CommandType::MoveToAbs | CommandType::MoveToRel | CommandType::LineToAbs
        | CommandType::LineToRel => 2,
        _ => 1,
    }
}

pub open spec fn fits_i32(v: int) -> bool {
    i32::MIN <= v <= i32::MAX
}

/// The point that the step of `t` at parameter `k` reaches from `cur`, or
/// `None` where a relative step leaves the range of `i32`.
pub open spec fn step_point(t: CommandType, cur: Vec2, ps: Seq<i32>, k: int) -> Option<Vec2> {
    match t {
        CommandType::MoveToAbs | CommandType::LineToAbs => Some(Vec2 { x: ps[k], y: ps[k + 1] }),
        CommandType::MoveToRel | CommandType::LineToRel => {
            if fits_i32(cur.x + ps[k]) && fits_i32(cur.y + ps[k + 1]) {
                Some(Vec2 { x: (cur.x + ps[k]) as i32, y: (cur.y + ps[k + 1]) as i32 })
            } else {
                None
            }
        },
        CommandType::VertAbs => Some(Vec2 { x: cur.x, y: ps[k] }),
        CommandType::VertRel => {
            if fits_i32(cur.y + ps[k]) {
                Some(Vec2 { x: cur.x, y: (cur.y + ps[k]) as i32 })
            } else {
                None
            }
        },
        CommandType::HorizAbs => Some(Vec2 { x: ps[k], y: cur.y }),
        CommandType::HorizRel => {
            if fits_i32(cur.x + ps[k]) {
                Some(Vec2 { x: (cur.x + ps[k]) as i32, y: cur.y })
            } else {
                None
            }
        },
        CommandType::ClosePath => None,
    }
}

/// Runs the steps of a drawing command from parameter `k` on. The first pair
/// of a move also starts a new subpath; the pairs after it draw lines.
pub open spec fn run_steps(t: CommandType, ps: Seq<i32>, k: int, pen: Pen) -> Result<Pen, PathError>
    decreases ps.len() - k,
{
    if k < 0 || k + step_width(t) > ps.len() {
        Ok(pen)
    } else {
        match step_point(t, pen.0, ps, k) {
            None => Err(PathError::CoordinateOutOfRange),
            Some(p) => run_steps(
                t,
                ps,
                k + step_width(t),
                (
                    p,
                    if k == 0 && (t == CommandType::MoveToAbs || t == CommandType::MoveToRel) {
                        p
                    } else {
                        pen.1
                    },
                    pen.2,
                    pen.3.push(p),
                ),
            ),
        }
    }
}

/// The effect of one command on a pen. A closing command ends the polygon
/// being drawn and returns to the start of the subpath.
pub open spec fn run_command(c: CommandModel, pen: Pen) -> Result<Pen, PathError> {
    if c.0 == CommandType::ClosePath {
        if c.1.len() == 0 {
            Ok((pen.1, pen.1, pen.2.push(pen.3), seq![]))
        } else {
            Err(PathError::ParameterCount)
        }
    } else if c.1.len() == 0 || c.1.len() % step_width(c.0) != 0 {
        Err(PathError::ParameterCount)
    } else {
        run_steps(c.0, c.1, 0, pen)
    }
}

/// The effect of a sequence of commands on a pen.
pub open spec fn run_commands(cs: Seq<CommandModel>, pen: Pen) -> Result<Pen, PathError>
    decreases cs.len(),
{
    if cs.len() == 0 {
        Ok(pen)
    } else {
        match run_command(cs[0], pen) {
            Ok(next) => run_commands(cs.drop_first(), next),
            Err(e) => Err(e),
        }
    }
}

/// The polygons a pen has drawn: those it closed, and the one it was drawing
/// if that has any vertex.
pub open spec fn drawn(pen: Pen) -> Seq<Seq<Vec2>> {
    if pen.3.len() > 0 {
        pen.2.push(pen.3)
    } else {
        pen.2
    }
}

/// The polygons that a command sequence draws.
pub open spec fn trace(cs: Seq<CommandModel>) -> Result<Seq<Seq<Vec2>>, PathError> {
    match run_commands(cs, initial_pen()) {
        Ok(pen) => Ok(drawn(pen)),
        Err(e) => Err(e),
    }
}

/// The polygons that a path text describes.
pub open spec fn decode(text: Seq<char>) -> Result<Seq<Seq<Vec2>>, PathError> {
    match lex(text) {
        Err(e) => Err(e),
        Ok(ts) => match group(ts) {
            Err(e) => Err(e),
            Ok(cs) => trace(cs),
        },
    }
}

/// The vertex lists of a list of polygons.
pub open spec fn nested(v: Seq<Vec<Vec2>>) -> Seq<Seq<Vec2>> {
    Seq::new(v.len(), |i: int| v[i]@)
}

fn step_point_exec(t: CommandType, cur: Vec2, ps: &Vec<i32>, k: usize) -> (r: Option<Vec2>)
    requires
        t != CommandType::ClosePath,
        k + step_width(t) <= ps@.len(),
    ensures
        r == step_point(t, cur, ps@, k as int),
{
    let _n = ps.len();
    match t {
        CommandType::MoveToAbs | CommandType::LineToAbs => {
            assert(step_width(t) == 2);
            Some(Vec2 { x: ps[k], y: ps[k + 1] })
        },
        CommandType::MoveToRel | CommandType::LineToRel => {
            assert(step_width(t) == 2);
            let x = cur.x as i64 + ps[k] as i64;
            let y = cur.y as i64 + ps[k + 1] as i64;
            if i32::MIN as i64 <= x && x <= i32::MAX as i64 && i32::MIN as i64 <= y && y
                <= i32::MAX as i64 {
                Some(Vec2 { x: x as i32, y: y as i32 })
            } else {
                None
            }
        },
        CommandType::VertAbs => Some(Vec2 { x: cur.x, y: ps[k] }),
        CommandType::VertRel => {
            let y = cur.y as i64 + ps[k] as i64;
            if i32::MIN as i64 <= y && y <= i32::MAX as i64 {
                Some(Vec2 { x: cur.x, y: y as i32 })
            } else {
                None
            }
        },
        CommandType::HorizAbs => Some(Vec2 { x: ps[k], y: cur.y }),
        _ => {
            let x = cur.x as i64 + ps[k] as i64;
            if i32::MIN as i64 <= x && x <= i32::MAX as i64 {
                Some(Vec2 { x: x as i32, y: cur.y })
            } else {
                None
            }
        },
    }
}

fn width_of(t: CommandType) -> (r: usize)
    ensures
        r == step_width(t),
{
    match t {
        CommandType::MoveToAbs | CommandType::MoveToRel | CommandType::LineToAbs
        | CommandType::LineToRel => 2,
        _ => 1,
    }
}

/// Applies one command to the pen `(cur, start)` with its polygons.
fn apply_command(
    c: &Command,
    cur: &mut Vec2,
    start: &mut Vec2,
    done: &mut Vec<Vec<Vec2>>,
    open: &mut Vec<Vec2>,
) -> (r: Result<(), PathError>)
    ensures
        match run_command(c@, (*old(cur), *old(start), nested(old(done)@), old(open)@)) {
            Ok(pen) => r is Ok && pen == (*final(cur), *final(start), nested(final(done)@), final(open)@),
            Err(e) => r == Err::<(), PathError>(e),
        },
{
    let t = c.cmd_type;
    let n = c.params.len();
    if let CommandType::ClosePath = t {
        if n != 0 {
            return Err(PathError::ParameterCount);
        }
        let ghost before = nested(done@);
        let mut o: Vec<Vec2> = Vec::new();
        std::mem::swap(open, &mut o);
        done.push(o);
        assert(nested(done@) =~= before.push(old(open)@));
        *cur = *start;
        assert(open@ =~= Seq::<Vec2>::empty());
        return Ok(());
    }
    let w = width_of(t);
    if n == 0 || n % w != 0 {
        return Err(PathError::ParameterCount);
    }
    let mut k: usize = 0;
    while k < n
        invariant
            t == c.cmd_type,
            t != CommandType::ClosePath,
            n == c.params@.len(),
            w == step_width(t),
            n % w == 0,
            k % w == 0,
            k <= n,
            run_command(c@, (*old(cur), *old(start), nested(old(done)@), old(open)@)) == run_steps(
                t,
                c.params@,
                k as int,
                (*cur, *start, nested(done@), open@),
            ),
        decreases n - k,
    {
        assert(k + w <= n) by {
            assert(n % w == 0 && k % w == 0 && k < n);
            assert(w == 1 || w == 2);
        }
        match step_point_exec(t, *cur, &c.params, k) {
            None => {
                return Err(PathError::CoordinateOutOfRange);
            },
            Some(p) => {
                if k == 0 && (t == CommandType::MoveToAbs || t == CommandType::MoveToRel) {
                    *start = p;
                }
                *cur = p;
                open.push(p);
                k = k + w;
            },
        }
    }
    Ok(())
}

/// Interprets a command sequence as the polygons it draws.
pub fn trace_commands(cs: &Vec<Command>) -> (r: Result<Vec<Vec<Vec2>>, PathError>)
    ensures
        match r {
            Ok(ps) => trace(commands_model(cs@)) == Ok::<Seq<Seq<Vec2>>, PathError>(nested(ps@)),
            Err(e) => trace(commands_model(cs@)) == Err::<Seq<Seq<Vec2>>, PathError>(e),
        },
{
    let n = cs.len();
    let mut cur = Vec2 { x: 0, y: 0 };
    let mut start = Vec2 { x: 0, y: 0 };
    let mut done: Vec<Vec<Vec2>> = Vec::new();
    let mut open: Vec<Vec2> = Vec::new();
    let ghost all = commands_model(cs@);
    assert(all.skip(0) =~= all);
    assert(nested(done@) =~= Seq::<Seq<Vec2>>::empty());
    assert(open@ =~= Seq::<Vec2>::empty());
    let mut i: usize = 0;
    while i < n
        invariant
            n == cs@.len(),
            i <= n,
            all == commands_model(cs@),
            run_commands(all, initial_pen()) == run_commands(
                all.skip(i as int),
                (cur, start, nested(done@), open@),
            ),
        decreases n - i,
    {
        let ghost rest = all.skip(i as int);
        assert(rest[0] == cs@[i as int]@);
        assert(rest.drop_first() =~= all.skip(i + 1));
        let res = apply_command(&cs[i], &mut cur, &mut start, &mut done, &mut open);
        if let Err(e) = res {
            return Err(e);
        }
        i = i + 1;
    }
    assert(all.skip(i as int) =~= Seq::<CommandModel>::empty());
    let ghost closed = nested(done@);
    if open.len() > 0 {
        done.push(open);
        assert(nested(done@) =~= closed.push(open@));
    }
    Ok(done)
}

/// Running more parameters after a completed run continues from where it ended.
proof fn lemma_run_steps_extend(
    t: CommandType,
    ps: Seq<i32>,
    extra: Seq<i32>,
    k: int,
    pen: Pen,
    q: Pen,
)
    requires
        t != CommandType::ClosePath,
        0 <= k <= ps.len(),
        (ps.len() - k) % (step_width(t) as int) == 0,
        run_steps(t, ps, k, pen) == Ok::<Pen, PathError>(q),
    ensures
        run_steps(t, ps + extra, k, pen) == run_steps(t, ps + extra, ps.len() as int, q),
    decreases ps.len() - k,
{
    let w = step_width(t) as int;
    assert(w == 1 || w == 2);
    if k < ps.len() {
        assert(k + w <= ps.len());
        assert((ps + extra)[k] == ps[k]);
        if w == 2 {
            assert((ps + extra)[k + 1] == ps[k + 1]);
        }
        assert(step_point(t, pen.0, ps + extra, k) == step_point(t, pen.0, ps, k));
        match step_point(t, pen.0, ps, k) {
            None => {},
            Some(p) => {
                let next = (
                    p,
                    if k == 0 && (t == CommandType::MoveToAbs || t == CommandType::MoveToRel) {
                        p
                    } else {
                        pen.1
                    },
                    pen.2,
                    pen.3.push(p),
                );
                assert((ps.len() - (k + w)) % w == 0);
                lemma_run_steps_extend(t, ps, extra, k + w, next, q);
            },
        }
    }
}

/// Running a command after a sequence is running the sequence, then the command.
proof fn lemma_run_commands_push(cs: Seq<CommandModel>, c: CommandModel, pen: Pen)
    ensures
        run_commands(cs.push(c), pen) == match run_commands(cs, pen) {
            Ok(q) => run_command(c, q),
            Err(e) => Err(e),
        },
    decreases cs.len(),
{
    if cs.len() == 0 {
        assert(cs.push(c).drop_first() =~= Seq::<CommandModel>::empty());
        assert(cs.push(c)[0] == c);
        match run_command(c, pen) {
            Ok(next) => {
                assert(run_commands(Seq::<CommandModel>::empty(), next) == Ok::<Pen, PathError>(
                    next,
                ));
            },
            Err(_) => {},
        }
    } else {
        assert(cs.push(c)[0] == cs[0]);
        assert(cs.push(c).drop_first() =~= cs.drop_first().push(c));
        match run_command(cs[0], pen) {
            Ok(next) => lemma_run_commands_push(cs.drop_first(), c, next),
            Err(_) => {},
        }
    }
}

/// Whether two consecutive vertices share a coordinate.
pub open spec fn aligned(a: Vec2, b: Vec2) -> bool {
    a.x == b.x || a.y == b.y
}

/// The pen after the first `i` vertices of `pts` have been drawn.
pub open spec fn pen_after(pts: Seq<Vec2>, i: int) -> Pen {
    (pts[i - 1], pts[0], seq![], pts.take(i))
}

/// Whether every command of a sequence is an absolute one.
pub open spec fn all_absolute(cs: Seq<CommandModel>) -> bool {
    forall|i: int| 0 <= i < cs.len() ==> !relative(#[trigger] cs[i].0)
}

/// Whether a line of kind `t` that has reached `prev` goes on to `next`.
pub open spec fn continues_spec(t: CommandType, prev: Vec2, next: Vec2) -> bool {
    if t == CommandType::VertAbs {
        next.x == prev.x
    } else if t == CommandType::HorizAbs {
        next.y == prev.y
    } else {
        next != prev
    }
}

fn continues(t: CommandType, prev: Vec2, next: Vec2) -> (r: bool)
    ensures
        r == continues_spec(t, prev, next),
{
    if t == CommandType::VertAbs {
        next.x == prev.x
    } else if t == CommandType::HorizAbs {
        next.y == prev.y
    } else {
        next != prev
    }
}


/// The coordinates that a command of kind `t` writes for the vertices from `a`
/// up to `e`: `y` for a vertical line, `x` for a horizontal one, both for any
/// other.
pub open spec fn run_params(pts: Seq<Vec2>, t: CommandType, a: int, e: int) -> Seq<i32>
    decreases e - a,
{
    if e <= a {
        seq![]
    } else {
        run_params(pts, t, a, e - 1) + if t == CommandType::VertAbs {
            seq![pts[e - 1].y]
        } else if t == CommandType::HorizAbs {
            seq![pts[e - 1].x]
        } else {
            seq![pts[e - 1].x, pts[e - 1].y]
        }
    }
}

/// Where the opening move stops: at the first vertex from `i` on that shares a
/// coordinate with the one before it.
pub open spec fn move_end(pts: Seq<Vec2>, i: int) -> int
    decreases pts.len() - i,
{
    if 1 <= i < pts.len() && !aligned(pts[i - 1], pts[i]) {
        move_end(pts, i + 1)
    } else {
        i
    }
}

/// The kind of the command that starts at vertex `a`, from how it lies to the
/// vertex before it.
pub open spec fn kind_at(pts: Seq<Vec2>, a: int) -> CommandType {
    if pts[a].x == pts[a - 1].x {
        CommandType::VertAbs
    } else if pts[a].y == pts[a - 1].y {
        CommandType::HorizAbs
    } else {
        CommandType::LineToAbs
    }
}

/// Where a command of kind `t` that has reached vertex `j - 1` stops.
pub open spec fn run_end(pts: Seq<Vec2>, t: CommandType, j: int) -> int
    decreases pts.len() - j,
{
    if 1 <= j < pts.len() && continues_spec(t, pts[j - 1], pts[j]) {
        run_end(pts, t, j + 1)
    } else {
        j
    }
}

proof fn lemma_run_end_bound(pts: Seq<Vec2>, t: CommandType, j: int)
    ensures
        run_end(pts, t, j) >= j,
        1 <= j <= pts.len() ==> run_end(pts, t, j) <= pts.len(),
    decreases pts.len() - j,
{
    if 1 <= j < pts.len() && continues_spec(t, pts[j - 1], pts[j]) {
        lemma_run_end_bound(pts, t, j + 1);
    }
}

/// The commands after the opening move, from vertex `a` on.
pub open spec fn segments_from(pts: Seq<Vec2>, a: int) -> Seq<CommandModel>
    decreases pts.len() - a,
    via segments_from_decreases
{
    if a < 1 || a >= pts.len() {
        seq![]
    } else {
        let t = kind_at(pts, a);
        let e = run_end(pts, t, a + 1);
        seq![(t, run_params(pts, t, a, e))] + segments_from(pts, e)
    }
}

#[via_fn]
proof fn segments_from_decreases(pts: Seq<Vec2>, a: int) {
    if 1 <= a < pts.len() {
        lemma_run_end_bound(pts, kind_at(pts, a), a + 1);
    }
}

/// The greedy encoding of a polygon: an opening move, the runs after it, and a
/// closing command.
pub open spec fn encode_spec(pts: Seq<Vec2>) -> Seq<CommandModel> {
    let e = move_end(pts, 1);
    seq![(CommandType::MoveToAbs, run_params(pts, CommandType::LineToAbs, 0, e))] + segments_from(
        pts,
        e,
    ) + seq![(CommandType::ClosePath, Seq::<i32>::empty())]
}

/// Encodes one closed polygon as path commands, greedily.
///
/// The first command is an absolute move that takes vertices for as long as no
/// two consecutive ones share a coordinate. Each later command starts at the
/// vertex where the previous one stopped: it is a vertical line while
/// consecutive vertices share `x`, a horizontal line while they share `y`, and
/// otherwise a line through all remaining vertices up to a repeated one. A
/// closing command ends the list. Decoding the result gives back exactly the
/// polygon.
pub fn encode_points(pts: &Vec<Vec2>) -> (r: Vec<Command>)
    requires
        pts@.len() >= 1,
    ensures
        trace(commands_model(r@)) == Ok::<Seq<Seq<Vec2>>, PathError>(seq![pts@]),
        r@.len() >= 2,
        r@[0].cmd_type == CommandType::MoveToAbs,
        r@.last().cmd_type == CommandType::ClosePath,
        all_absolute(commands_model(r@)),
        commands_model(r@) == encode_spec(pts@),
{
    let n = pts.len();
    let mut cmds: Vec<Command> = Vec::new();
    let p0 = pts[0];
    let mut params: Vec<i32> = Vec::new();
    params.push(p0.x);
    params.push(p0.y);
    let mut i: usize = 1;
    proof {
        assert(params@ =~= seq![p0.x, p0.y]);
        assert(pts@.take(0) =~= Seq::<Vec2>::empty());
        assert(pts@.take(1) =~= seq![p0]);
        assert(run_steps(CommandType::MoveToAbs, params@, 2, pen_after(pts@, 1)) == Ok::<
            Pen,
            PathError,
        >(pen_after(pts@, 1)));
        assert(run_params(pts@, CommandType::LineToAbs, 0, 0) =~= Seq::<i32>::empty());
        assert(params@ =~= run_params(pts@, CommandType::LineToAbs, 0, 1));
    }
    while i < n && !(pts[i - 1].x == pts[i].x || pts[i - 1].y == pts[i].y)
        invariant
            n == pts@.len(),
            1 <= i <= n,
            params@ == run_params(pts@, CommandType::LineToAbs, 0, i as int),
            move_end(pts@, 1) == move_end(pts@, i as int),
            params@.len() == 2 * i,
            run_steps(CommandType::MoveToAbs, params@, 0, initial_pen()) == Ok::<Pen, PathError>(
                pen_after(pts@, i as int),
            ),
        decreases n - i,
    {
        let p = pts[i];
        let ghost before = params@;
        params.push(p.x);
        params.push(p.y);
        proof {
            assert(params@ =~= before + seq![p.x, p.y]);
            lemma_run_steps_extend(
                CommandType::MoveToAbs,
                before,
                seq![p.x, p.y],
                0,
                initial_pen(),
                pen_after(pts@, i as int),
            );
            assert(pts@.take(i + 1) =~= pts@.take(i as int).push(p));
            assert(params@[before.len() as int] == p.x);
            assert(params@[before.len() as int + 1] == p.y);
            assert(run_steps(CommandType::MoveToAbs, params@, 2 * i + 2, pen_after(pts@, i + 1))
                == Ok::<Pen, PathError>(pen_after(pts@, i + 1)));
            assert(params@ =~= run_params(pts@, CommandType::LineToAbs, 0, i + 1));
        }
        i = i + 1;
    }
    let ghost e0 = i as int;
    assert(move_end(pts@, 1) == e0);
    let ghost first = (CommandType::MoveToAbs, params@);
    cmds.push(Command { cmd_type: CommandType::MoveToAbs, params });
    proof {
        assert(commands_model(cmds@) =~= seq![first]);
        assert(seq![first] =~= Seq::<CommandModel>::empty().push(first));
        lemma_run_commands_push(Seq::<CommandModel>::empty(), first, initial_pen());
    }
    while i < n
        invariant
            n == pts@.len(),
            1 <= i <= n,
            cmds@.len() >= 1,
            cmds@[0].cmd_type == CommandType::MoveToAbs,
            all_absolute(commands_model(cmds@)),
            run_commands(commands_model(cmds@), initial_pen()) == Ok::<Pen, PathError>(
                pen_after(pts@, i as int),
            ),
            e0 == move_end(pts@, 1),
            first == (CommandType::MoveToAbs, run_params(pts@, CommandType::LineToAbs, 0, e0)),
            commands_model(cmds@) + segments_from(pts@, i as int) == seq![first] + segments_from(
                pts@,
                e0,
            ),
        decreases n - i,
    {
        let a = i;
        let last = pts[a - 1];
        let cur = pts[a];
        let ghost pen_a = pen_after(pts@, a as int);
        let t: CommandType;
        let mut ps: Vec<i32> = Vec::new();
        if cur.x == last.x {
            t = CommandType::VertAbs;
            ps.push(cur.y);
        } else if cur.y == last.y {
            t = CommandType::HorizAbs;
            ps.push(cur.x);
        } else {
            t = CommandType::LineToAbs;
            ps.push(cur.x);
            ps.push(cur.y);
        }
        let mut j: usize = a + 1;
        proof {
            assert(pts@.take(a + 1) =~= pts@.take(a as int).push(cur));
            let w = step_width(t) as int;
            assert(step_point(t, last, ps@, 0) == Some(cur));
            assert(t == kind_at(pts@, a as int));
            assert(run_params(pts@, t, a as int, a as int) =~= Seq::<i32>::empty());
            assert(ps@ =~= run_params(pts@, t, a as int, a + 1));
            assert(run_steps(t, ps@, w, pen_after(pts@, a + 1)) == Ok::<Pen, PathError>(
                pen_after(pts@, a + 1),
            ));
        }
        while j < n && continues(t, pts[j - 1], pts[j])
            invariant
                n == pts@.len(),
                1 <= a < j <= n,
                pen_a == pen_after(pts@, a as int),
                t == CommandType::VertAbs || t == CommandType::HorizAbs || t
                    == CommandType::LineToAbs,
                ps@.len() == (j - a) * step_width(t),
                run_steps(t, ps@, 0, pen_a) == Ok::<Pen, PathError>(pen_after(pts@, j as int)),
                ps@ == run_params(pts@, t, a as int, j as int),
                run_end(pts@, t, a + 1) == run_end(pts@, t, j as int),
            decreases n - j,
        {
            let p = pts[j];
            let ghost before = ps@;
            let ghost extra: Seq<i32>;
            if t == CommandType::VertAbs {
                ps.push(p.y);
                proof {
                    extra = seq![p.y];
                }
            } else if t == CommandType::HorizAbs {
                ps.push(p.x);
                proof {
                    extra = seq![p.x];
                }
            } else {
                ps.push(p.x);
                ps.push(p.y);
                proof {
                    extra = seq![p.x, p.y];
                }
            }
            proof {
                assert(ps@ =~= before + extra);
                assert((before.len() - 0) % (step_width(t) as int) == 0) by {
                    assert(before.len() == (j - a) * step_width(t));
                    if step_width(t) == 2 {
                        assert(((j - a) * 2) % 2 == 0) by (nonlinear_arith);
                    }
                }
                lemma_run_steps_extend(t, before, extra, 0, pen_a, pen_after(pts@, j as int));
                assert(ps@[before.len() as int] == extra[0]);
                if t == CommandType::LineToAbs {
                    assert(ps@[before.len() as int + 1] == extra[1]);
                }
                assert(step_point(t, pts@[j - 1], ps@, before.len() as int) == Some(p));
                assert(run_steps(t, ps@, ps@.len() as int, pen_after(pts@, j + 1)) == Ok::<
                    Pen,
                    PathError,
                >(pen_after(pts@, j + 1)));
                assert(pts@.take(j + 1) =~= pts@.take(j as int).push(p));
                assert(ps@ =~= run_params(pts@, t, a as int, j + 1));
                assert(ps@.len() == (j + 1 - a) * step_width(t)) by (nonlinear_arith)
                    requires
                        ps@.len() == before.len() + step_width(t),
                        before.len() == (j - a) * step_width(t),
                ;
            }
            j = j + 1;
        }
        let ghost c = (t, ps@);
        let ghost prev = commands_model(cmds@);
        cmds.push(Command { cmd_type: t, params: ps });
        proof {
            assert(commands_model(cmds@) =~= prev.push(c));
            assert(run_end(pts@, t, j as int) == j);
            assert(segments_from(pts@, a as int) == seq![c] + segments_from(pts@, j as int));
            assert(commands_model(cmds@) + segments_from(pts@, j as int) =~= prev + segments_from(
                pts@,
                a as int,
            ));
            lemma_run_commands_push(prev, c, initial_pen());
            assert(c.1.len() > 0);
            assert((c.1.len() as int) % (step_width(t) as int) == 0) by {
                if step_width(t) == 2 {
                    assert(((j - a) * 2) % 2 == 0) by (nonlinear_arith);
                }
            }
            assert(all_absolute(commands_model(cmds@))) by {
                assert forall|q: int| 0 <= q < commands_model(cmds@).len() implies !relative(
                    #[trigger] commands_model(cmds@)[q].0,
                ) by {
                    if q < prev.len() {
                        assert(commands_model(cmds@)[q] == prev[q]);
                    }
                }
            }
        }
        i = j;
    }
    let ghost prev = commands_model(cmds@);
    let ghost close = (CommandType::ClosePath, Seq::<i32>::empty());
    cmds.push(Command { cmd_type: CommandType::ClosePath, params: Vec::new() });
    proof {
        assert(commands_model(cmds@) =~= prev.push(close));
        assert(segments_from(pts@, i as int) =~= Seq::<CommandModel>::empty());
        assert(prev =~= prev + segments_from(pts@, i as int));
        assert(commands_model(cmds@) =~= encode_spec(pts@));
        lemma_run_commands_push(prev, close, initial_pen());
        assert(pts@.take(n as int) =~= pts@);
        assert(drawn((pts@[0], pts@[0], seq![pts@], seq![])) =~= seq![pts@]);
        assert(Seq::<Seq<Vec2>>::empty().push(pts@) =~= seq![pts@]);
        assert(all_absolute(commands_model(cmds@))) by {
            assert forall|q: int| 0 <= q < commands_model(cmds@).len() implies !relative(
                #[trigger] commands_model(cmds@)[q].0,
            ) by {
                if q < prev.len() {
                    assert(commands_model(cmds@)[q] == prev[q]);
                }
            }
        }
    }
    cmds
}

/// The character of a decimal digit.
pub open spec fn digit_char(d: int) -> char {
    if d == 0 {
        '0'
    } else if d == 1 {
        '1'
    } else if d == 2 {
        '2'
    } else if d == 3 {
        '3'
    } else if d == 4 {
        '4'
    } else if d == 5 {
        '5'
    } else if d == 6 {
        '6'
    } else if d == 7 {
        '7'
    } else if d == 8 {
        '8'
    } else {
        '9'
    }
}

/// The decimal digits of a natural number, without leading zeros.
pub open spec fn nat_text(n: nat) -> Seq<char>
    decreases n,
{
    if n < 10 {
        seq![digit_char(n as int)]
    } else {
        nat_text(n / 10).push(digit_char((n % 10) as int))
    }
}

/// The fraction digits of a number of thousandths below 1000: a point and up
/// to three digits, without trailing zeros; nothing for zero.
pub open spec fn frac_text(f: int) -> Seq<char> {
    if f == 0 {
        seq![]
    } else if f % 10 != 0 {
        seq!['.', digit_char(f / 100), digit_char((f / 10) % 10), digit_char(f % 10)]
    } else if (f / 10) % 10 != 0 {
        seq!['.', digit_char(f / 100), digit_char((f / 10) % 10)]
    } else {
        seq!['.', digit_char(f / 100)]
    }
}

/// The decimal text of a number of thousandths: a minus sign where it is
/// negative, the whole part, then the fraction.
pub open spec fn number_text(v: int) -> Seq<char> {
    let m = if v < 0 {
        -v
    } else {
        v
    };
    (if v < 0 {
        seq!['-']
    } else {
        seq![]
    }) + nat_text((m / 1000) as nat) + frac_text(m % 1000)
}

/// The parameters of a command, each followed by a space.
pub open spec fn params_text(ps: Seq<i32>) -> Seq<char>
    decreases ps.len(),
{
    if ps.len() == 0 {
        seq![]
    } else {
        number_text(ps[0] as int) + seq![' '] + params_text(ps.drop_first())
    }
}

/// A command as text: its letter, then its parameters.
pub open spec fn command_text(c: CommandModel) -> Seq<char> {
    seq![opcode_letter(c.0)] + params_text(c.1)
}

/// A command sequence as text, one command after the other.
pub open spec fn commands_text(cs: Seq<CommandModel>) -> Seq<char>
    decreases cs.len(),
{
    if cs.len() == 0 {
        seq![]
    } else {
        command_text(cs[0]) + commands_text(cs.drop_first())
    }
}

/// The number tokens of a parameter list.
pub open spec fn number_tokens(ps: Seq<i32>) -> Seq<Token> {
    Seq::new(ps.len(), |i: int| Token::Num(ps[i]))
}

/// The tokens of a command.
pub open spec fn command_tokens(c: CommandModel) -> Seq<Token> {
    seq![Token::Op(c.0)] + number_tokens(c.1)
}

/// The tokens of a command sequence.
pub open spec fn commands_tokens(cs: Seq<CommandModel>) -> Seq<Token>
    decreases cs.len(),
{
    if cs.len() == 0 {
        seq![]
    } else {
        command_tokens(cs[0]) + commands_tokens(cs.drop_first())
    }
}

proof fn lemma_digit_char(d: int)
    requires
        0 <= d < 10,
    ensures
        digit_value(digit_char(d)) == Some(d),
{
}

proof fn lemma_nat_text(n: nat)
    ensures
        nat_text(n).len() >= 1,
        forall|i: int| 0 <= i < nat_text(n).len() ==> digit_value(#[trigger] nat_text(n)[i]) is Some,
        digits_value(nat_text(n)) == n,
    decreases n,
{
    if n < 10 {
        lemma_digit_char(n as int);
        let t = nat_text(n);
        assert(t.drop_last() =~= Seq::<char>::empty());
        assert(digits_value(t.drop_last()) == 0);
        assert(t.last() == digit_char(n as int));
    } else {
        lemma_nat_text(n / 10);
        lemma_digit_char((n % 10) as int);
        let t = nat_text(n);
        assert(t.drop_last() =~= nat_text(n / 10));
        assert(t.last() == digit_char((n % 10) as int));
        assert(n == (n / 10) * 10 + n % 10);
        assert forall|i: int| 0 <= i < t.len() implies digit_value(#[trigger] t[i]) is Some by {
            if i < t.len() - 1 {
                assert(t[i] == nat_text(n / 10)[i]);
            }
        }
    }
}

proof fn lemma_frac_digits(f: int)
    requires
        0 < f < 1000,
    ensures
        frac_text(f).len() >= 2,
        frac_text(f)[0] == '.',
        ({
            let ds = frac_text(f).drop_first();
            &&& forall|i: int| 0 <= i < ds.len() ==> digit_value(#[trigger] ds[i]) is Some
            &&& thousandths(ds) == f
            &&& ds.len() <= 3
        }),
{
    let a = f / 100;
    let b = (f / 10) % 10;
    let c = f % 10;
    assert(f == 100 * a + 10 * b + c);
    lemma_digit_char(a);
    lemma_digit_char(b);
    lemma_digit_char(c);
    let ds = frac_text(f).drop_first();
    if c != 0 {
        assert(ds =~= seq![digit_char(a), digit_char(b), digit_char(c)]);
    } else if b != 0 {
        assert(ds =~= seq![digit_char(a), digit_char(b)]);
    } else {
        assert(ds =~= seq![digit_char(a)]);
    }
}

/// The text of a number, followed by a space, reads back as that number.
#[verifier::rlimit(60)]
proof fn lemma_number_token(v: i32, rest: Seq<char>)
    ensures
        number_token(number_text(v as int) + seq![' '] + rest) == Ok::<(i32, int), PathError>(
            (v, number_text(v as int).len() as int),
        ),
        !is_separator((number_text(v as int) + seq![' '] + rest)[0]),
        opcode_type((number_text(v as int) + seq![' '] + rest)[0]) is None,
        crate::path::starts_number((number_text(v as int) + seq![' '] + rest)[0]),
{
    let s = number_text(v as int) + seq![' '] + rest;
    let m: int = if v < 0 {
        -v
    } else {
        v as int
    };
    let q = m / 1000;
    let f = m % 1000;
    let digits = nat_text(q as nat);
    lemma_nat_text(q as nat);
    let sign: Seq<char> = if v < 0 {
        seq!['-']
    } else {
        seq![]
    };
    let sign_len = sign.len() as int;
    let ft = frac_text(f);
    assert(s =~= sign + digits + ft + seq![' '] + rest);
    let body = s.skip(sign_len);
    assert(body =~= digits + ft + seq![' '] + rest);
    if v < 0 {
        assert(s[0] == '-');
        assert(digit_value(s[0]) is None);
    } else {
        assert(s[0] == digits[0]);
    }
    assert(!is_separator(s[0]));
    assert(opcode_type(s[0]) is None);
    assert forall|i: int| 0 <= i < digits.len() implies digit_value(#[trigger] body[i]) is Some by {
        assert(body[i] == digits[i]);
    }
    let k = digits.len() as int;
    let after = ft + seq![' '] + rest;
    if f == 0 {
        assert(ft =~= Seq::<char>::empty());
        assert(body[k] == ' ');
    } else {
        lemma_frac_digits(f);
        assert(body[k] == '.');
    }
    lemma_digit_run_exact(body, k);
    assert(body.take(k) =~= digits);
    assert(body.skip(k) =~= after);
    let len = number_text(v as int).len() as int;
    if f == 0 {
        assert(after[0] == ' ');
        assert(thousandths(Seq::<char>::empty()) == 0);
        assert(len == sign_len + k);
    } else {
        let ds = ft.drop_first();
        let tail = after.drop_first();
        assert(tail =~= ds + seq![' '] + rest);
        assert forall|i: int| 0 <= i < ds.len() implies digit_value(#[trigger] tail[i]) is Some by {
            assert(tail[i] == ds[i]);
        }
        assert(tail[ds.len() as int] == ' ');
        lemma_digit_run_exact(tail, ds.len() as int);
        assert(tail.take(ds.len() as int) =~= ds);
        assert(len == sign_len + k + 1 + ds.len());
    }
    assert(m == q * 1000 + f);
}

/// Reading a number that is followed by a space gives that number.
proof fn lemma_lex_number(v: i32, rest: Seq<char>, acc: Seq<Token>)
    ensures
        lex_from(number_text(v as int) + seq![' '] + rest, acc) == lex_from(
            rest,
            acc.push(Token::Num(v)),
        ),
{
    let s = number_text(v as int) + seq![' '] + rest;
    let len = number_text(v as int).len() as int;
    lemma_number_token(v, rest);
    let acc1 = acc.push(Token::Num(v));
    assert(s.skip(len) =~= seq![' '] + rest);
    let sp = seq![' '] + rest;
    assert(sp[0] == ' ');
    assert(sp.drop_first() =~= rest);
    assert(lex_from(sp, acc1) == lex_from(sp.drop_first(), acc1));
}

proof fn lemma_lex_params(ps: Seq<i32>, rest: Seq<char>, acc: Seq<Token>)
    ensures
        lex_from(params_text(ps) + rest, acc) == lex_from(rest, acc + number_tokens(ps)),
    decreases ps.len(),
{
    if ps.len() == 0 {
        assert(params_text(ps) + rest =~= rest);
        assert(acc + number_tokens(ps) =~= acc);
    } else {
        let tail = ps.drop_first();
        assert(params_text(ps) + rest =~= number_text(ps[0] as int) + seq![' '] + (params_text(tail)
            + rest));
        lemma_lex_number(ps[0], params_text(tail) + rest, acc);
        lemma_lex_params(tail, rest, acc.push(Token::Num(ps[0])));
        assert(acc.push(Token::Num(ps[0])) + number_tokens(tail) =~= acc + number_tokens(ps));
    }
}

proof fn lemma_lex_commands(cs: Seq<CommandModel>, acc: Seq<Token>)
    ensures
        lex_from(commands_text(cs), acc) == Ok::<Seq<Token>, PathError>(acc + commands_tokens(cs)),
    decreases cs.len(),
{
    if cs.len() == 0 {
        assert(acc + commands_tokens(cs) =~= acc);
    } else {
        let c = cs[0];
        let tail = cs.drop_first();
        let s = commands_text(cs);
        assert(s =~= seq![opcode_letter(c.0)] + (params_text(c.1) + commands_text(tail)));
        assert(s[0] == opcode_letter(c.0));
        assert(opcode_type(opcode_letter(c.0)) == Some(c.0));
        assert(s.drop_first() =~= params_text(c.1) + commands_text(tail));
        let acc1 = acc.push(Token::Op(c.0));
        lemma_lex_params(c.1, commands_text(tail), acc1);
        lemma_lex_commands(tail, acc1 + number_tokens(c.1));
        assert(acc1 + number_tokens(c.1) + commands_tokens(tail) =~= acc + commands_tokens(cs));
    }
}

proof fn lemma_group_numbers(
    ps: Seq<i32>,
    rest: Seq<Token>,
    acc: Seq<CommandModel>,
    t: CommandType,
    pre: Seq<i32>,
)
    ensures
        group_from(number_tokens(ps) + rest, acc.push((t, pre))) == group_from(
            rest,
            acc.push((t, pre + ps)),
        ),
    decreases ps.len(),
{
    if ps.len() == 0 {
        assert(number_tokens(ps) + rest =~= rest);
        assert(pre + ps =~= pre);
    } else {
        let ts = number_tokens(ps) + rest;
        assert(ts[0] == Token::Num(ps[0]));
        assert(ts.drop_first() =~= number_tokens(ps.drop_first()) + rest);
        let a = acc.push((t, pre));
        assert(a.update(a.len() - 1, (a.last().0, a.last().1.push(ps[0]))) =~= acc.push(
            (t, pre.push(ps[0])),
        ));
        lemma_group_numbers(ps.drop_first(), rest, acc, t, pre.push(ps[0]));
        assert(pre.push(ps[0]) + ps.drop_first() =~= pre + ps);
    }
}

proof fn lemma_group_commands(cs: Seq<CommandModel>, acc: Seq<CommandModel>)
    ensures
        group_from(commands_tokens(cs), acc) == Ok::<Seq<CommandModel>, PathError>(acc + cs),
    decreases cs.len(),
{
    if cs.len() == 0 {
        assert(acc + cs =~= acc);
    } else {
        let c = cs[0];
        let tail = cs.drop_first();
        let ts = commands_tokens(cs);
        assert(ts =~= seq![Token::Op(c.0)] + (number_tokens(c.1) + commands_tokens(tail)));
        assert(ts[0] == Token::Op(c.0));
        assert(ts.drop_first() =~= number_tokens(c.1) + commands_tokens(tail));
        lemma_group_numbers(c.1, commands_tokens(tail), acc, c.0, seq![]);
        assert(Seq::<i32>::empty() + c.1 =~= c.1);
        lemma_group_commands(tail, acc.push((c.0, c.1)));
        assert(acc.push((c.0, c.1)) + tail =~= acc + cs);
    }
}

/// Reading back the text of a command sequence gives what the sequence itself
/// draws.
pub proof fn lemma_text_round_trip(cs: Seq<CommandModel>)
    ensures
        decode(commands_text(cs)) == trace(cs),
{
    lemma_lex_commands(cs, seq![]);
    assert(Seq::<Token>::empty() + commands_tokens(cs) =~= commands_tokens(cs));
    lemma_group_commands(cs, seq![]);
    assert(Seq::<CommandModel>::empty() + cs =~= cs);
}

fn digit_char_exec(d: u32) -> (r: char)
    requires
        d < 10,
    ensures
        r == digit_char(d as int),
{
    match d {
        0 => '0',
        1 => '1',
        2 => '2',
        3 => '3',
        4 => '4',
        5 => '5',
        6 => '6',
        7 => '7',
        8 => '8',
        _ => '9',
    }
}

fn push_nat(out: &mut Vec<char>, n: u32)
    ensures
        final(out)@ == old(out)@ + nat_text(n as nat),
    decreases n,
{
    if n >= 10 {
        push_nat(out, n / 10);
    }
    out.push(digit_char_exec(n % 10));
    assert(nat_text(n as nat) == if n < 10 {
        seq![digit_char(n as int)]
    } else {
        nat_text((n / 10) as nat).push(digit_char((n % 10) as int))
    });
}

fn push_number(out: &mut Vec<char>, v: i32)
    ensures
        final(out)@ == old(out)@ + number_text(v as int),
{
    let m: i64 = if v < 0 {
        -(v as i64)
    } else {
        v as i64
    };
    let ghost start = out@;
    if v < 0 {
        out.push('-');
    }
    let ghost signed = out@;
    push_nat(out, (m / 1000) as u32);
    let f = (m % 1000) as u32;
    let ghost whole = out@;
    if f != 0 {
        out.push('.');
        out.push(digit_char_exec(f / 100));
        if f % 10 != 0 {
            out.push(digit_char_exec((f / 10) % 10));
            out.push(digit_char_exec(f % 10));
        } else if (f / 10) % 10 != 0 {
            out.push(digit_char_exec((f / 10) % 10));
        }
    }
    assert(out@ =~= whole + frac_text(f as int));
    assert(out@ =~= start + number_text(v as int));
}

/// Writes a command sequence as path text.
pub fn render_commands(cs: &Vec<Command>) -> (r: Vec<char>)
    ensures
        r@ == commands_text(commands_model(cs@)),
{
    let n = cs.len();
    let mut out: Vec<char> = Vec::new();
    let mut i: usize = 0;
    let ghost all = commands_model(cs@);
    assert(all.skip(0) =~= all);
    while i < n
        invariant
            n == cs@.len(),
            i <= n,
            all == commands_model(cs@),
            out@ + commands_text(all.skip(i as int)) == commands_text(all),
        decreases n - i,
    {
        let c = &cs[i];
        let ghost before = out@;
        out.push(c.cmd_type.to_opcode());
        let m = c.params.len();
        let mut k: usize = 0;
        assert(c.params@.skip(0) =~= c.params@);
        while k < m
            invariant
                m == c.params@.len(),
                k <= m,
                out@ + params_text(c.params@.skip(k as int)) == before + command_text(c@),
            decreases m - k,
        {
            let ghost mid = out@;
            push_number(&mut out, c.params[k]);
            out.push(' ');
            assert(c.params@.skip(k as int).drop_first() =~= c.params@.skip(k + 1));
            assert(out@ + params_text(c.params@.skip(k + 1)) =~= mid + params_text(
                c.params@.skip(k as int),
            ));
            k = k + 1;
        }
        assert(params_text(c.params@.skip(k as int)) =~= Seq::<char>::empty()) by {
            assert(c.params@.skip(k as int) =~= Seq::<i32>::empty());
        }
        assert(out@ =~= out@ + Seq::<char>::empty());
        assert(all.skip(i as int)[0] == c@);
        assert(all.skip(i as int).drop_first() =~= all.skip(i + 1));
        assert(out@ + commands_text(all.skip(i + 1)) =~= before + commands_text(all.skip(i as int)));
        i = i + 1;
    }
    assert(all.skip(i as int) =~= Seq::<CommandModel>::empty());
    assert(out@ + Seq::<char>::empty() =~= out@);
    out
}

/// Relies on `String`'s `FromIterator<char>`: the string holds the characters
/// in order.
#[verifier::external_body]
pub(crate) fn string_from_chars(cs: &Vec<char>) -> (r: String)
    ensures
        r@ == cs@,
{
    cs.iter().collect()
}

/// The path text of one closed polygon; reading it back gives the polygon.
pub fn polygon_text(pts: &Vec<Vec2>) -> (r: String)
    requires
        pts@.len() >= 1,
    ensures
        decode(r@) == Ok::<Seq<Seq<Vec2>>, PathError>(seq![pts@]),
        r@ == commands_text(encode_spec(pts@)),
{
    let cs = encode_points(pts);
    let text = render_commands(&cs);
    proof {
        lemma_text_round_trip(commands_model(cs@));
    }
    string_from_chars(&text)
}

/// The polygons that a path text describes, or why it was refused.
pub fn parse_path(text: &str) -> (r: Result<Vec<Vec<Vec2>>, PathError>)
    ensures
        match r {
            Ok(ps) => decode(text@) == Ok::<Seq<Seq<Vec2>>, PathError>(nested(ps@)),
            Err(e) => decode(text@) == Err::<Seq<Seq<Vec2>>, PathError>(e),
        },
{
    let chars = chars_of(text);
    let toks = match lex_path(&chars) {
        Ok(t) => t,
        Err(e) => {
            return Err(e);
        },
    };
    let cmds = match group_tokens(&toks) {
        Ok(c) => c,
        Err(e) => {
            return Err(e);
        },
    };
    trace_commands(&cmds)
}

} // verus!
