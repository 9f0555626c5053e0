//! Reading where an aircraft is to go.

use crate::coord::{legal_coordinate, Geo};
use crate::error::{AppError, InputInvalidReason};
use crate::scalar::Scalar;
use crate::text::characters;
use vstd::prelude::*;

verus! {

/// Whether a character is white space.
pub open spec fn blank(c: char) -> bool {
    let n = c as int;
    ||| 0x9 <= n <= 0xd
    ||| n == 0x20
    ||| n == 0x85
    ||| n == 0xa0
    ||| n == 0x1680
    ||| 0x2000 <= n <= 0x200a
    ||| n == 0x2028
    ||| n == 0x2029
    ||| n == 0x202f
    ||| n == 0x205f
    ||| n == 0x3000
}

fn is_blank(c: char) -> (r: bool)
    ensures
        r == blank(c),
{
    let n: u32 = c as u32;
    (0x9 <= n && n <= 0xd) || n == 0x20 || n == 0x85 || n == 0xa0 || n == 0x1680 || (0x2000 <= n
        && n <= 0x200a) || n == 0x2028 || n == 0x2029 || n == 0x202f || n == 0x205f || n == 0x3000
}

/// A text without the white space before it.
pub open spec fn front_trimmed(s: Seq<char>) -> Seq<char>
    decreases s.len(),
{
    if s.len() > 0 && blank(s.first()) {
        front_trimmed(s.drop_first())
    } else {
        s
    }
}

/// A text without the white space behind it.
pub open spec fn back_trimmed(s: Seq<char>) -> Seq<char>
    decreases s.len(),
{
    if s.len() > 0 && blank(s.last()) {
        back_trimmed(s.drop_last())
    } else {
        s
    }
}

/// A text without the white space around it.
pub open spec fn trimmed(s: Seq<char>) -> Seq<char> {
    back_trimmed(front_trimmed(s))
}

fn trim(s: &Vec<char>) -> (r: Vec<char>)
    ensures
        r@ == trimmed(s@),
{
    let n: usize = s.len();
    let mut i: usize = 0;
    assert(s@.skip(0) =~= s@);
    while i < n && is_blank(s[i])
        invariant
            n == s@.len(),
            i <= n,
            front_trimmed(s@.skip(i as int)) == front_trimmed(s@),
        decreases n - i,
    {
        assert(s@.skip(i as int).drop_first() =~= s@.skip(i + 1));
        i = i + 1;
    }
    let ghost front = s@.skip(i as int);
    assert(front_trimmed(front) == front);
    let mut j: usize = n;
    assert(s@.subrange(i as int, j as int) =~= front);
    while i < j && is_blank(s[j - 1])
        invariant
            n == s@.len(),
            i <= j <= n,
            back_trimmed(s@.subrange(i as int, j as int)) == back_trimmed(front),
        decreases j - i,
    {
        assert(s@.subrange(i as int, j as int).drop_last() =~= s@.subrange(i as int, j - 1));
        j = j - 1;
    }
    let ghost middle = s@.subrange(i as int, j as int);
    assert(back_trimmed(middle) == middle);
    let mut out: Vec<char> = Vec::new();
    let mut k: usize = i;
    while k < j
        invariant
            i <= k <= j <= s@.len(),
            out@ == s@.subrange(i as int, k as int),
        decreases j - k,
    {
        out.push(s[k]);
        k = k + 1;
        assert(out@ =~= s@.subrange(i as int, k as int));
    }
    out
}

/// The pieces of a text between its commas.
pub open spec fn pieces(s: Seq<char>) -> Seq<Seq<char>>
    decreases s.len(),
{
    if s.len() == 0 {
        seq![Seq::empty()]
    } else if s.last() == ',' {
        pieces(s.drop_last()).push(Seq::empty())
    } else {
        let before = pieces(s.drop_last());
        before.update(before.len() - 1, before.last().push(s.last()))
    }
}

/// Whether texts are those of a sequence.
pub open spec fn are_texts(texts: Seq<Vec<char>>, views: Seq<Seq<char>>) -> bool {
    texts.len() == views.len() && forall|i: int|
        0 <= i < views.len() ==> (#[trigger] texts[i])@ == views[i]
}

fn split(s: &Vec<char>) -> (r: Vec<Vec<char>>)
    ensures
        are_texts(r@, pieces(s@)),
{
    let mut done: Vec<Vec<char>> = Vec::new();
    let mut piece: Vec<char> = Vec::new();
    let mut k: usize = 0;
    assert(s@.take(0) =~= Seq::<char>::empty());
    assert(pieces(Seq::<char>::empty()) =~= seq![Seq::<char>::empty()]);
    while k < s.len()
        invariant
            k <= s@.len(),
            are_texts(done@.push(piece), pieces(s@.take(k as int))),
        decreases s.len() - k,
    {
        let ghost had = done@.push(piece);
        let ghost was = pieces(s@.take(k as int));
        let ghost last = piece@;
        let c: char = s[k];
        proof {
            assert(s@.take(k + 1).drop_last() =~= s@.take(k as int));
            assert(had[had.len() - 1]@ == was[was.len() - 1]);
            assert(was.last() == last);
        }
        let ghost ended = done@;
        if c == ',' {
            done.push(piece);
            piece = Vec::new();
            proof {
                let now = done@.push(piece);
                let want = pieces(s@.take(k + 1));
                assert(want == was.push(Seq::empty()));
                assert forall|i: int| 0 <= i < want.len() implies (#[trigger] now[i])@ == want[i] by {
                    if i < had.len() {
                        assert(now[i] == had[i]);
                        assert(had[i]@ == was[i]);
                    } else {
                        assert(piece@ =~= Seq::<char>::empty());
                    }
                }
            }
        } else {
            piece.push(c);
            proof {
                let now = done@.push(piece);
                let want = pieces(s@.take(k + 1));
                assert(want == was.update(was.len() - 1, was.last().push(c)));
                assert forall|i: int| 0 <= i < want.len() implies (#[trigger] now[i])@ == want[i] by {
                    if i < had.len() - 1 {
                        assert(now[i] == had[i]);
                        assert(had[i]@ == was[i]);
                    }
                }
            }
        }
        k = k + 1;
    }
    assert(s@.take(k as int) =~= s@);
    done.push(piece);
    done
}

/// Where an aircraft is sent, as it is written.
pub enum TargetText {
    /// To the target of the mission.
    Mission,
    /// To the place of this longitude and latitude.
    Place(Vec<char>, Vec<char>),
    Unknown,
}

/// Whether a text sends an aircraft to the target of the mission.
pub open spec fn names_mission(text: Option<Seq<char>>) -> bool {
    match text {
        None => true,
        Some(s) => trimmed(s).len() == 0 || trimmed(s) == "mission.target"@,
    }
}

/// Whether a text has the form of a place: longitude and latitude, perhaps a height,
/// between commas.
pub open spec fn names_place(s: Seq<char>) -> bool {
    pieces(trimmed(s)).len() == 2 || pieces(trimmed(s)).len() == 3
}

fn is_mission(s: &Vec<char>) -> (r: bool)
    ensures
        r == (s@ == "mission.target"@),
{
    let name: Vec<char> = characters("mission.target");
    if s.len() != name.len() {
        return false;
    }
    let mut k: usize = 0;
    while k < s.len()
        invariant
            k <= s@.len(),
            s@.len() == name@.len(),
            name@ == "mission.target"@,
            forall|i: int| 0 <= i < k ==> #[trigger] s@[i] == name@[i],
        decreases s.len() - k,
    {
        if s[k] != name[k] {
            return false;
        }
        k = k + 1;
    }
    assert(s@ =~= name@);
    true
}

/// Reads where an aircraft is sent: nothing, white space and `mission.target` stand
/// for the target of the mission, two or three texts between commas for a place.
pub fn read_target_ref(text: Option<&str>) -> (r: TargetText)
    ensures
        r is Mission <==> names_mission(
            match text {
                Some(s) => Some(s@),
                None => None,
            },
        ),
        text is Some && r !is Mission ==> {
            &&& r is Place <==> names_place(text->0@)
            &&& r is Place ==> r->Place_0@ == trimmed(pieces(trimmed(text->0@))[0])
                && r->Place_1@ == trimmed(pieces(trimmed(text->0@))[1])
        },
{
    let s: &str = match text {
        Some(s) => s,
        None => {
            return TargetText::Mission;
        },
    };
    let all: Vec<char> = characters(s);
    let t: Vec<char> = trim(&all);
    if t.len() == 0 || is_mission(&t) {
        return TargetText::Mission;
    }
    let parts: Vec<Vec<char>> = split(&t);
    if parts.len() == 2 || parts.len() == 3 {
        TargetText::Place(trim(&parts[0]), trim(&parts[1]))
    } else {
        TargetText::Unknown
    }
}

/// The place an aircraft is sent to, given the numbers that the texts of a place
/// stand for, if they are numbers. What is no place is refused.
pub fn resolve_target_ref(
    read: &TargetText,
    lon: Option<Scalar>,
    lat: Option<Scalar>,
    mission_target: &Geo,
) -> (r: Result<Geo, AppError>)
    ensures
        read is Mission ==> r == Ok::<Geo, AppError>(*mission_target),
        read is Place && lon is Some && lat is Some && legal_coordinate(lon->0, lat->0) ==> r == Ok::<
            Geo,
            AppError,
        >(Geo { lon: lon->0, lat: lat->0 }),
        !(read is Mission) && !(read is Place && lon is Some && lat is Some && legal_coordinate(
            lon->0,
            lat->0,
        )) ==> r == Err::<Geo, AppError>(
            AppError::InputInvalid(InputInvalidReason::IllegalCoordinate),
        ),
{
    match read {
        TargetText::Mission => Ok(*mission_target),
        TargetText::Place(_, _) => {
            match (lon, lat) {
                (Some(lon), Some(lat)) => match Geo::new(lon, lat) {
                    Ok(g) => Ok(g),
                    Err(_) => Err(AppError::InputInvalid(InputInvalidReason::IllegalCoordinate)),
                },
                _ => Err(AppError::InputInvalid(InputInvalidReason::IllegalCoordinate)),
            }
        },
        TargetText::Unknown => Err(AppError::InputInvalid(InputInvalidReason::IllegalCoordinate)),
    }
}

} // verus!
