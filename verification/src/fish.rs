//! Fish records and their catch windows.
use vstd::prelude::*;
use crate::schedule::MAX_UNIX_SECS;
use crate::text::{decimal, push_decimal};

verus! {

/// A span of time during which a fish can be caught, in seconds since the
/// epoch.  Both ends lie within what a system time can hold.
#[derive(Debug, Clone, Copy)]
pub struct FishWindow {
    start: u64,
    end: u64,
}

impl FishWindow {
    #[verifier::type_invariant]
    spec fn within_system_time(self) -> bool {
        self.start <= MAX_UNIX_SECS && self.end <= MAX_UNIX_SECS
    }

    /// Start of the window.
    pub closed spec fn start_secs(self) -> u64 {
        self.start
    }

    /// End of the window.
    pub closed spec fn end_secs(self) -> u64 {
        self.end
    }

    pub fn new(start: u64, end: u64) -> (w: FishWindow)
        requires
            start <= MAX_UNIX_SECS,
            end <= MAX_UNIX_SECS,
        ensures
            w.start_secs() == start,
            w.end_secs() == end,
    {
        FishWindow { start, end }
    }

    pub fn start(&self) -> (r: u64)
        ensures
            r == self.start_secs(),
            r <= MAX_UNIX_SECS,
    {
        proof {
            use_type_invariant(self);
        }
        self.start
    }

    pub fn end(&self) -> (r: u64)
        ensures
            r == self.end_secs(),
            r <= MAX_UNIX_SECS,
    {
        proof {
            use_type_invariant(self);
        }
        self.end
    }
}

/// What the filters read of a fish.
///
/// `patch` is the game patch as major version and hundredths (6.05 is
/// `(6, 5)`, 6.1 is `(6, 10)`).  `uptime_key` stands for the fraction of time
/// the fish is available: it orders fish as their uptimes do, and it is
/// compared with uptime thresholds given in the same terms.
#[derive(Debug)]
pub struct Fish {
    pub id: u32,
    pub name: String,
    pub region_name: String,
    pub location_name: String,
    pub patch: (u8, u8),
    pub uptime_key: i64,
}

/// How a patch is written: the major version, a dot, then the hundredths,
/// where a whole number of tenths is written as one digit (6.1, 7.0) and other
/// values as two (6.05, 6.11).
pub open spec fn patch_text(patch: (u8, u8)) -> Seq<char> {
    let (major, minor) = patch;
    decimal(major as nat) + seq!['.'] + if minor % 10 == 0 {
        decimal((minor / 10) as nat)
    } else if minor < 10 {
        seq!['0'] + decimal(minor as nat)
    } else {
        decimal(minor as nat)
    }
}

/// A patch is written as its major version, a dot, then its hundredths: one
/// digit for a whole number of tenths (6.1, 7.0), two digits otherwise (6.05,
/// 6.11).
pub proof fn lemma_patch_text_meaning(major: u8, minor: u8)
    ensures
        minor % 10 == 0 ==> patch_text((major, minor)) == decimal(major as nat) + seq!['.']
            + decimal((minor / 10) as nat),
        0 < minor < 10 ==> patch_text((major, minor)) == decimal(major as nat) + seq!['.', '0']
            + decimal(minor as nat),
        minor >= 10 && minor % 10 != 0 ==> patch_text((major, minor)) == decimal(major as nat)
            + seq!['.'] + decimal(minor as nat),
{
    assert(seq!['.'] + (seq!['0'] + decimal(minor as nat)) =~= seq!['.', '0'] + decimal(minor as nat));
    assert(decimal(major as nat) + seq!['.'] + (seq!['0'] + decimal(minor as nat)) =~= decimal(
        major as nat,
    ) + seq!['.', '0'] + decimal(minor as nat));
}

impl Fish {
    /// The fish's patch as text, such as "6.05", "6.1" or "7.0".
    pub fn patch_string(&self) -> (s: String)
        ensures
            s@ == patch_text(self.patch),
    {
        let (major, minor) = self.patch;
        let mut s = String::new();
        push_decimal(&mut s, major);
        proof {
            reveal_strlit(".");
            reveal_strlit("0");
        }
        s.append(".");
        if minor % 10 == 0 {
            push_decimal(&mut s, minor / 10);
        } else if minor < 10 {
            s.append("0");
            push_decimal(&mut s, minor);
        } else {
            push_decimal(&mut s, minor);
        }
        assert(s@ =~= patch_text(self.patch));
        s
    }
}

/// The set of known fish, in a fixed order.
#[derive(Debug)]
pub struct FishData {
    fishes: Vec<Fish>,
}

/// Index of the first fish with the given id, if any.
pub open spec fn first_with_id(fishes: Seq<Fish>, id: u32) -> Option<int>
    decreases fishes.len(),
{
    if fishes.len() == 0 {
        None
    } else if fishes[0].id == id {
        Some(0)
    } else {
        match first_with_id(fishes.drop_first(), id) {
            Some(i) => Some(i + 1),
            None => None,
        }
    }
}

/// When no fish before position `i` has the id, the first fish with it is
/// found by searching from `i` on.
proof fn lemma_first_with_id_skip(fishes: Seq<Fish>, id: u32, i: int)
    requires
        0 <= i <= fishes.len(),
        forall|j: int| 0 <= j < i ==> fishes[j].id != id,
    ensures
        first_with_id(fishes, id) == match first_with_id(fishes.skip(i), id) {
            Some(k) => Some(k + i),
            None => None::<int>,
        },
    decreases i,
{
    if i > 0 {
        lemma_first_with_id_skip(fishes.drop_first(), id, i - 1);
        assert(fishes.drop_first().skip(i - 1) =~= fishes.skip(i));
    } else {
        assert(fishes.skip(0) =~= fishes);
    }
}

proof fn lemma_first_with_id_meaning(fishes: Seq<Fish>, id: u32)
    ensures
        match first_with_id(fishes, id) {
            Some(i) => 0 <= i < fishes.len() && fishes[i].id == id && forall|j: int|
                0 <= j < i ==> fishes[j].id != id,
            None => forall|j: int| 0 <= j < fishes.len() ==> fishes[j].id != id,
        },
    decreases fishes.len(),
{
    if fishes.len() > 0 {
        let tail = fishes.drop_first();
        lemma_first_with_id_meaning(tail, id);
        if fishes[0].id != id {
            match first_with_id(tail, id) {
                Some(i) => {
                    assert(fishes[i + 1] == tail[i]);
                    assert forall|j: int| 0 <= j < i + 1 implies fishes[j].id != id by {
                        if j > 0 {
                            assert(fishes[j] == tail[j - 1]);
                        }
                    }
                },
                None => {
                    assert forall|j: int| 0 <= j < fishes.len() implies fishes[j].id != id by {
                        if j > 0 {
                            assert(fishes[j] == tail[j - 1]);
                        }
                    }
                },
            }
        }
    }
}

impl FishData {
    pub fn new(fishes: Vec<Fish>) -> (data: FishData)
        ensures
            data.fish_seq() == fishes@,
    {
        FishData { fishes }
    }

    pub closed spec fn fish_seq(&self) -> Seq<Fish> {
        self.fishes@
    }

    pub fn fishes(&self) -> (s: &[Fish])
        ensures
            s@ == self.fish_seq(),
    {
        self.fishes.as_slice()
    }

    /// The fish with the given id: the first one in the list that has it.
    pub open spec fn fish_with_id(&self, id: u32) -> Option<Fish> {
        match first_with_id(self.fish_seq(), id) {
            Some(i) => Some(self.fish_seq()[i]),
            None => None,
        }
    }

    /// The fish found by id is the first in the list that has the id; none is
    /// found exactly when no fish has it.
    pub proof fn lemma_fish_with_id_meaning(&self, id: u32)
        ensures
            match self.fish_with_id(id) {
                Some(f) => exists|i: int|
                    0 <= i < self.fish_seq().len() && self.fish_seq()[i] == f && f.id == id
                        && forall|j: int| 0 <= j < i ==> (#[trigger] self.fish_seq()[j]).id != id,
                None => forall|j: int|
                    0 <= j < self.fish_seq().len() ==> (#[trigger] self.fish_seq()[j]).id != id,
            },
    {
        lemma_first_with_id_meaning(self.fish_seq(), id);
    }

    pub fn fish_by_id(&self, id: u32) -> (r: Option<&Fish>)
        ensures
            r is None <==> self.fish_with_id(id) is None,
            r matches Some(f) ==> self.fish_with_id(id) == Some(*f),
    {
        let fishes = self.fishes.as_slice();
        let mut i: usize = 0;
        while i < fishes.len()
            invariant
                fishes@ == self.fish_seq(),
                i <= fishes@.len(),
                forall|j: int| 0 <= j < i ==> fishes@[j].id != id,
            decreases fishes@.len() - i,
        {
            if fishes[i].id == id {
                proof {
                    lemma_first_with_id_skip(fishes@, id, i as int);
                    assert(fishes@.skip(i as int)[0] == fishes@[i as int]);
                }
                return Some(&fishes[i]);
            }
            i = i + 1;
        }
        proof {
            lemma_first_with_id_skip(fishes@, id, i as int);
            assert(fishes@.skip(i as int).len() == 0);
        }
        None
    }
}

/// `next_window` can be called on any arguments.
pub open spec fn callable<F: Fn(&Fish, u64, bool, bool, bool) -> Option<FishWindow>>(
    next_window: F,
) -> bool {
    forall|f: &Fish, from: u64, a: bool, b: bool, c: bool|
        #[trigger] next_window.requires((f, from, a, b, c))
}

/// `next_window` gives one answer for each set of arguments.
pub open spec fn deterministic<F: Fn(&Fish, u64, bool, bool, bool) -> Option<FishWindow>>(
    next_window: F,
) -> bool {
    forall|f: &Fish, from: u64, a: bool, b: bool, c: bool, r1: Option<FishWindow>, r2: Option<
        FishWindow,
    >|
        #[trigger] next_window.ensures((f, from, a, b, c), r1) && #[trigger] next_window.ensures(
            (f, from, a, b, c),
            r2,
        ) ==> r1 == r2
}

} // verus!
