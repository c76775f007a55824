//! Frames, and their assembly from rows that arrive in any order.

use vstd::prelude::*;
use crate::color::Color;

verus! {

/// Why a row was not taken into a frame.
#[derive(Clone, Copy, Debug, PartialEq, Eq, Structural)]
pub enum PlaceError {
    /// The row index is not below the frame's height.
    RowOutOfRange,
    /// The row does not hold one colour per column.
    WrongLength,
    /// A row with this index was placed before.
    AlreadyPlaced,
}

/// A frame of `height` rows of which none has arrived.
pub open spec fn unfilled(height: nat) -> Seq<Option<Seq<Color>>> {
    Seq::new(height, |y: int| None)
}

/// Whether a frame in the state `rows` takes `colors` as its row `y`.
pub open spec fn accepts(rows: Seq<Option<Seq<Color>>>, width: nat, y: usize, colors: Seq<Color>) -> bool {
    &&& y < rows.len()
    &&& colors.len() == width
    &&& rows[y as int] is None
}

/// The state of a frame after the arrivals, taken one by one in the order
/// given; an arrival that the frame does not accept leaves it as it is.
pub open spec fn gathered(
    rows: Seq<Option<Seq<Color>>>,
    width: nat,
    arrivals: Seq<(usize, Seq<Color>)>,
) -> Seq<Option<Seq<Color>>>
    decreases arrivals.len(),
{
    if arrivals.len() == 0 {
        rows
    } else {
        let before = gathered(rows, width, arrivals.drop_last());
        let (y, colors) = arrivals.last();
        if accepts(before, width, y, colors) {
            before.update(y as int, Some(colors))
        } else {
            before
        }
    }
}

/// How many rows have not arrived.
pub open spec fn count_missing(rows: Seq<Option<Seq<Color>>>) -> nat
    decreases rows.len(),
{
    if rows.len() == 0 {
        0
    } else {
        count_missing(rows.drop_last()) + if rows.last() is None {
            1nat
        } else {
            0nat
        }
    }
}

/// A complete frame: `height` rows of `width` colours each.
#[derive(Debug, PartialEq, Eq)]
pub struct FrameBuffer {
    width: usize,
    rows: Vec<Vec<Color>>,
}

impl FrameBuffer {
    #[verifier::type_invariant]
    spec fn well_formed(&self) -> bool {
        forall|y: int| 0 <= y < self.rows@.len() ==> (#[trigger] self.rows@[y])@.len() == self.width
    }

    /// The rows, top to bottom, each left to right.
    pub closed spec fn view(&self) -> Seq<Seq<Color>> {
        Seq::new(self.rows@.len(), |y: int| self.rows@[y]@)
    }

    /// The number of columns.
    pub closed spec fn columns(&self) -> nat {
        self.width as nat
    }

    /// The number of columns.
    pub fn width(&self) -> (r: usize)
        ensures
            r == self.columns(),
    {
        self.width
    }

    /// The number of rows.
    pub fn height(&self) -> (r: usize)
        ensures
            r == self@.len(),
    {
        self.rows.len()
    }

    /// Row `y`, left to right, if the frame has such a row.
    pub fn row(&self, y: usize) -> (r: Option<&Vec<Color>>)
        ensures
            r is Some <==> y < self@.len(),
            r matches Some(colors) ==> colors@ == self@[y as int] && colors@.len() == self.columns(),
    {
        proof {
            use_type_invariant(self);
        }
        if y < self.rows.len() {
            Some(&self.rows[y])
        } else {
            None
        }
    }

    /// The colour of column `x` in row `y`, if the frame has such a pixel.
    pub fn pixel(&self, x: usize, y: usize) -> (r: Option<Color>)
        ensures
            r == if y < self@.len() && x < self.columns() {
                Some(self@[y as int][x as int])
            } else {
                None
            },
            forall|k: int| 0 <= k < self@.len() ==> (#[trigger] self@[k]).len() == self.columns(),
    {
        proof {
            use_type_invariant(self);
        }
        if y < self.rows.len() && x < self.width {
            Some(self.rows[y][x])
        } else {
            None
        }
    }
}

/// A frame under assembly: rows are placed by index as they arrive.
#[derive(Debug)]
pub struct FrameAssembler {
    width: usize,
    rows: Vec<Vec<Color>>,
    placed: Vec<bool>,
    missing: usize,
}

impl FrameAssembler {
    /// The bookkeeping agrees with the rows held.
    pub closed spec fn wf(&self) -> bool {
        &&& self.placed@.len() == self.rows@.len()
        &&& self.missing == count_missing(self.view())
        &&& forall|y: int|
            0 <= y < self.rows@.len() && #[trigger] self.placed@[y] ==> self.rows@[y]@.len() == self.width
    }

    /// For each row its colours, once it has arrived.
    pub closed spec fn view(&self) -> Seq<Option<Seq<Color>>> {
        Seq::new(
            self.rows@.len(),
            |y: int|
                if self.placed@[y] {
                    Some(self.rows@[y]@)
                } else {
                    None
                },
        )
    }

    /// The number of columns.
    pub closed spec fn columns(&self) -> nat {
        self.width as nat
    }

    /// A frame of the given size of which no row has arrived.
    pub fn new(width: usize, height: usize) -> (r: FrameAssembler)
        ensures
            r.wf(),
            r.columns() == width,
            r@ == unfilled(height as nat),
    {
        let mut rows: Vec<Vec<Color>> = Vec::new();
        let mut placed: Vec<bool> = Vec::new();
        let mut y: usize = 0;
        while y < height
            invariant
                y <= height,
                rows@.len() == y,
                placed@.len() == y,
                forall|k: int| 0 <= k < y ==> !#[trigger] placed@[k],
            decreases height - y,
        {
            rows.push(Vec::new());
            placed.push(false);
            y = y + 1;
        }
        let r = FrameAssembler { width, rows, placed, missing: height };
        proof {
            assert(r.view() =~= unfilled(height as nat));
            lemma_count_unfilled(height as nat);
        }
        r
    }

    /// The number of rows that have not arrived.
    pub fn missing(&self) -> (r: usize)
        requires
            self.wf(),
        ensures
            r == count_missing(self@),
    {
        self.missing
    }

    /// Whether every row has arrived.
    pub fn is_complete(&self) -> (r: bool)
        requires
            self.wf(),
        ensures
            r == (forall|y: int| 0 <= y < self@.len() ==> (#[trigger] self@[y]) is Some),
    {
        proof {
            lemma_count_missing_zero(self@);
        }
        self.missing == 0
    }

    /// Places `colors` as row `y`. A row that the frame cannot take is refused
    /// and the frame stays as it was.
    pub fn place_row(&mut self, y: usize, colors: Vec<Color>) -> (r: Result<(), PlaceError>)
        requires
            old(self).wf(),
        ensures
            final(self).wf(),
            final(self).columns() == old(self).columns(),
            final(self)@ == gathered(old(self)@, old(self).columns(), seq![(y, colors@)]),
            r is Ok <==> accepts(old(self)@, old(self).columns(), y, colors@),
            r is Ok ==> final(self)@ == old(self)@.update(y as int, Some(colors@)),
            r is Err ==> final(self)@ == old(self)@,
            r == Err::<(), PlaceError>(PlaceError::RowOutOfRange) <==> y >= old(self)@.len(),
            r == Err::<(), PlaceError>(PlaceError::WrongLength) <==> y < old(self)@.len() && colors@.len()
                != old(self).columns(),
            r == Err::<(), PlaceError>(PlaceError::AlreadyPlaced) <==> y < old(self)@.len() && colors@.len()
                == old(self).columns() && old(self)@[y as int] is Some,
    {
        proof {
            assert(seq![(y, colors@)].drop_last() =~= Seq::<(usize, Seq<Color>)>::empty());
            assert(gathered(self@, self.columns(), Seq::<(usize, Seq<Color>)>::empty()) == self@);
        }
        if y >= self.rows.len() {
            return Err(PlaceError::RowOutOfRange);
        }
        if colors.len() != self.width {
            return Err(PlaceError::WrongLength);
        }
        if self.placed[y] {
            return Err(PlaceError::AlreadyPlaced);
        }
        let ghost before = self@;
        proof {
            lemma_count_missing_update(before, y as int, colors@);
        }
        self.rows.set(y, colors);
        self.placed.set(y, true);
        self.missing = self.missing - 1;
        proof {
            assert(self.view() =~= before.update(y as int, Some(colors@)));
        }
        Ok(())
    }

    /// The finished frame, once every row has arrived.
    pub fn finish(self) -> (r: Option<FrameBuffer>)
        requires
            self.wf(),
        ensures
            r is Some <==> (forall|y: int| 0 <= y < self@.len() ==> (#[trigger] self@[y]) is Some),
            r matches Some(frame) ==> {
                &&& frame.columns() == self.columns()
                &&& frame@.len() == self@.len()
                &&& forall|y: int| 0 <= y < self@.len() ==> self@[y] == Some(#[trigger] frame@[y])
            },
    {
        proof {
            lemma_count_missing_zero(self@);
        }
        if self.missing != 0 {
            return None;
        }
        proof {
            assert forall|y: int| 0 <= y < self.rows@.len() implies (#[trigger] self.rows@[y])@.len()
                == self.width by {
                assert(self@[y] is Some);
                assert(self.placed@[y]);
            }
        }
        let ghost rows = self@;
        let frame = FrameBuffer { width: self.width, rows: self.rows };
        proof {
            assert forall|y: int| 0 <= y < rows.len() implies rows[y] == Some(#[trigger] frame@[y]) by {
                assert(rows[y] is Some);
            }
        }
        Some(frame)
    }
}

/// No row of an unfilled frame has arrived.
pub proof fn lemma_count_unfilled(height: nat)
    ensures
        count_missing(unfilled(height)) == height,
    decreases height,
{
    if height > 0 {
        assert(unfilled(height).drop_last() =~= unfilled((height - 1) as nat));
        lemma_count_unfilled((height - 1) as nat);
    }
}

/// Nothing is missing exactly when every row has arrived; and never more
/// rows are missing than the frame has.
pub proof fn lemma_count_missing_zero(rows: Seq<Option<Seq<Color>>>)
    ensures
        count_missing(rows) <= rows.len(),
        count_missing(rows) == 0 <==> (forall|y: int| 0 <= y < rows.len() ==> (#[trigger] rows[y]) is Some),
    decreases rows.len(),
{
    if rows.len() > 0 {
        let front = rows.drop_last();
        lemma_count_missing_zero(front);
        assert(forall|y: int| 0 <= y < front.len() ==> front[y] == rows[y]);
        if count_missing(rows) == 0 {
            assert forall|y: int| 0 <= y < rows.len() implies (#[trigger] rows[y]) is Some by {
                if y < front.len() {
                    assert(front[y] is Some);
                }
            }
        }
    }
}

/// The arrival of a missing row lowers the count of missing rows by one.
pub proof fn lemma_count_missing_update(rows: Seq<Option<Seq<Color>>>, y: int, colors: Seq<Color>)
    requires
        0 <= y < rows.len(),
        rows[y] is None,
    ensures
        count_missing(rows) >= 1,
        count_missing(rows.update(y, Some(colors))) == count_missing(rows) - 1,
    decreases rows.len(),
{
    let after = rows.update(y, Some(colors));
    if y == rows.len() - 1 {
        assert(after.drop_last() =~= rows.drop_last());
    } else {
        lemma_count_missing_update(rows.drop_last(), y, colors);
        assert(after.drop_last() =~= rows.drop_last().update(y, Some(colors)));
    }
}

/// Every arrival fits a frame of the given size, and no row arrives twice.
pub open spec fn orderly(arrivals: Seq<(usize, Seq<Color>)>, width: nat, height: nat) -> bool {
    &&& forall|i: int|
        0 <= i < arrivals.len() ==> (#[trigger] arrivals[i]).0 < height && arrivals[i].1.len() == width
    &&& forall|i: int, j: int|
        0 <= i < j < arrivals.len() ==> (#[trigger] arrivals[i]).0 != (#[trigger] arrivals[j]).0
}

/// After orderly arrivals a frame holds each arrived row at its index and
/// nothing elsewhere.
pub proof fn lemma_gathered_rows(arrivals: Seq<(usize, Seq<Color>)>, width: nat, height: nat)
    requires
        orderly(arrivals, width, height),
    ensures
        gathered(unfilled(height), width, arrivals).len() == height,
        forall|i: int|
            0 <= i < arrivals.len() ==> gathered(unfilled(height), width, arrivals)[(#[trigger] arrivals[i]).0 as int]
                == Some(arrivals[i].1),
        forall|y: int|
            0 <= y < height && (forall|i: int| 0 <= i < arrivals.len() ==> (#[trigger] arrivals[i]).0 != y)
                ==> (#[trigger] gathered(unfilled(height), width, arrivals)[y]) is None,
    decreases arrivals.len(),
{
    if arrivals.len() > 0 {
        let front = arrivals.drop_last();
        let before = gathered(unfilled(height), width, front);
        let (row, colors) = arrivals.last();
        assert(forall|i: int| 0 <= i < front.len() ==> front[i] == arrivals[i]);
        assert(orderly(front, width, height));
        lemma_gathered_rows(front, width, height);
        assert(arrivals[arrivals.len() - 1] == (row, colors));
        assert(before[row as int] is None);
        assert(accepts(before, width, row, colors));
        let after = gathered(unfilled(height), width, arrivals);
        assert(after == before.update(row as int, Some(colors)));
        assert forall|i: int| 0 <= i < arrivals.len() implies after[(#[trigger] arrivals[i]).0 as int] == Some(
            arrivals[i].1,
        ) by {
            if i < front.len() {
                assert(front[i].0 != row);
                assert(before[front[i].0 as int] == Some(front[i].1));
            }
        }
        assert forall|y: int|
            0 <= y < height && (forall|i: int|
                0 <= i < arrivals.len() ==> (#[trigger] arrivals[i]).0 != y) implies (#[trigger] after[y]) is None by {
            assert(y != row);
            assert(forall|i: int| 0 <= i < front.len() ==> (#[trigger] front[i]).0 != y);
            assert(before[y] is None);
        }
    }
}

/// The order in which rows arrive does not matter: two orderly runs of
/// arrivals that hold the same rows leave the same frame.
pub proof fn lemma_arrival_order_irrelevant(
    first: Seq<(usize, Seq<Color>)>,
    second: Seq<(usize, Seq<Color>)>,
    width: nat,
    height: nat,
)
    requires
        orderly(first, width, height),
        orderly(second, width, height),
        forall|i: int| 0 <= i < first.len() ==> second.contains(#[trigger] first[i]),
        forall|j: int| 0 <= j < second.len() ==> first.contains(#[trigger] second[j]),
    ensures
        gathered(unfilled(height), width, first) == gathered(unfilled(height), width, second),
{
    let a = gathered(unfilled(height), width, first);
    let b = gathered(unfilled(height), width, second);
    lemma_gathered_rows(first, width, height);
    lemma_gathered_rows(second, width, height);
    assert forall|y: int| 0 <= y < height implies a[y] == b[y] by {
        if exists|i: int| 0 <= i < first.len() && (#[trigger] first[i]).0 == y {
            let i = choose|i: int| 0 <= i < first.len() && (#[trigger] first[i]).0 == y;
            assert(second.contains(first[i]));
            let j = choose|j: int| 0 <= j < second.len() && second[j] == first[i];
            assert(a[first[i].0 as int] == Some(first[i].1));
            assert(b[second[j].0 as int] == Some(second[j].1));
        } else {
            if exists|j: int| 0 <= j < second.len() && (#[trigger] second[j]).0 == y {
                let j = choose|j: int| 0 <= j < second.len() && (#[trigger] second[j]).0 == y;
                assert(first.contains(second[j]));
                let i = choose|i: int| 0 <= i < first.len() && first[i] == second[j];
                assert(first[i].0 == y);
                assert(false);
            }
            assert(a[y] is None);
            assert(b[y] is None);
        }
    }
    assert(a =~= b);
}

/// Taking arrivals one run after another is taking them all in one run.
pub proof fn lemma_gathered_in_turn(
    rows: Seq<Option<Seq<Color>>>,
    width: nat,
    earlier: Seq<(usize, Seq<Color>)>,
    later: Seq<(usize, Seq<Color>)>,
)
    ensures
        gathered(rows, width, earlier + later) == gathered(gathered(rows, width, earlier), width, later),
    decreases later.len(),
{
    if later.len() == 0 {
        assert(earlier + later =~= earlier);
    } else {
        assert((earlier + later).drop_last() =~= earlier + later.drop_last());
        lemma_gathered_in_turn(rows, width, earlier, later.drop_last());
    }
}

/// The arrivals as the frame sees them: each row index with the row's colours.
pub open spec fn arrivals_view(arrivals: Seq<(usize, Vec<Color>)>) -> Seq<(usize, Seq<Color>)> {
    Seq::new(arrivals.len(), |i: int| (arrivals[i].0, arrivals[i].1@))
}

/// Gathers the rows that arrived, in their order of arrival, into a frame of
/// the given size. The frame is returned if every row has arrived.
pub fn assemble(width: usize, height: usize, arrivals: Vec<(usize, Vec<Color>)>) -> (r: Option<FrameBuffer>)
    ensures
        r is Some <==> (forall|y: int|
            0 <= y < height ==> (#[trigger] gathered(
                unfilled(height as nat),
                width as nat,
                arrivals_view(arrivals@),
            )[y]) is Some),
        r matches Some(frame) ==> {
            &&& frame.columns() == width
            &&& frame@.len() == height
            &&& forall|y: int|
                0 <= y < height ==> gathered(unfilled(height as nat), width as nat, arrivals_view(arrivals@))[y]
                    == Some(#[trigger] frame@[y])
        },
{
    let mut assembler = FrameAssembler::new(width, height);
    let ghost all = arrivals_view(arrivals@);
    for arrival in it: arrivals.into_iter()
        invariant
            it.seq() == arrivals@,
            all == arrivals_view(arrivals@),
            assembler.wf(),
            assembler.columns() == width,
            assembler@.len() == height,
            assembler@ == gathered(unfilled(height as nat), width as nat, all.take(it.index() as int)),
    {
        let ghost done = all.take(it.index() as int);
        let ghost before = assembler@;
        let (y, colors) = arrival;
        proof {
            assert(all.take(it.index() + 1) =~= done + seq![(y, colors@)]);
            lemma_gathered_in_turn(unfilled(height as nat), width as nat, done, seq![(y, colors@)]);
        }
        let _ = assembler.place_row(y, colors);
    }
    proof {
        assert(all.take(all.len() as int) =~= all);
    }
    assembler.finish()
}

} // verus!
