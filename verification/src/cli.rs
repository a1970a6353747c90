//! The small language in which items such as players and AIs are specified on the command line.
use vstd::prelude::*;

use crate::game::ai::AISpec;
use crate::game::player::PlayerType;

verus! {

/// An item specified by a string on the command line.
pub trait Specified: Sized {
    /// Can the token be read at all? (Reading it would fail outright otherwise.)
    spec fn spec_readable(token: Seq<char>) -> bool;

    /// Could reading the token give `r`?
    spec fn spec_read(token: Seq<char>, r: Result<Self, String>) -> bool;

    spec fn spec_desc(&self) -> Seq<char>;

    spec fn spec_spec(&self) -> Seq<char>;

    /// Read an item from the text specifying it.
    fn try_from_spec(token: &str) -> (r: Result<Self, String>)
        requires
            Self::spec_readable(token@),
        ensures
            Self::spec_read(token@, r),
    ;

    /// Can the token be read at all?
    fn readable(token: &str) -> (b: bool)
        ensures
            b == Self::spec_readable(token@),
    ;

    /// A description to show in the command line help.
    fn desc(&self) -> (s: String)
        ensures
            s@ == self.spec_desc(),
    ;

    /// The canonical text specifying the item.
    fn spec(&self) -> (s: String)
        ensures
            s@ == self.spec_spec(),
    ;
}

/// The pieces of the text between commas.
pub open spec fn comma_pieces(s: Seq<char>) -> Seq<Seq<char>>
    decreases s.len(),
{
    if s.len() == 0 {
        seq![Seq::<char>::empty()]
    } else if s.last() == ',' {
        comma_pieces(s.drop_last()).push(Seq::empty())
    } else {
        let ps = comma_pieces(s.drop_last());
        ps.update(ps.len() - 1, ps.last().push(s.last()))
    }
}

/// Could the items come of reading each character of `p` in turn?
pub open spec fn chars_read<T: Specified>(p: Seq<char>, items: Seq<T>) -> bool {
    &&& items.len() == p.len()
    &&& forall|i: int| 0 <= i < p.len() ==> T::spec_read(seq![p[i]], Ok(#[trigger] items[i]))
}

/// Could the items come of reading the piece `p`: whole, or, when that fails, character by character?
pub open spec fn piece_read<T: Specified>(p: Seq<char>, items: Seq<T>) -> bool {
    ||| (items.len() == 1 && T::spec_read(p, Ok(items[0])))
    ||| ((exists|e: String| T::spec_read(p, Err(e))) && chars_read(p, items))
}

/// Could the items come of reading the pieces in turn?
pub open spec fn pieces_read<T: Specified>(pieces: Seq<Seq<char>>, items: Seq<T>) -> bool
    decreases pieces.len(),
{
    if pieces.len() == 0 {
        items.len() == 0
    } else {
        exists|k: int|
            0 <= k <= items.len() && piece_read(pieces.last(), #[trigger] items.skip(k)) && pieces_read(
                pieces.drop_last(),
                items.take(k),
            )
    }
}

/// Could reading the piece `p` fail with the error `e`: whole, and then at one of its characters?
pub open spec fn piece_failed<T: Specified>(p: Seq<char>, spec_name: Seq<char>, e: Seq<char>) -> bool {
    &&& e == p + " is not a valid "@ + spec_name + " specification"@
    &&& exists|e1: String| T::spec_read(p, Err(e1))
    &&& exists|i: int, e2: String| 0 <= i < p.len() && T::spec_read(seq![p[i]], Err(e2))
}

/// Every piece, and every character of every piece, can be read.
pub open spec fn spec_readable_all<T: Specified>(s: Seq<char>) -> bool {
    forall|j: int| 0 <= j < comma_pieces(s).len() ==> {
        let p = #[trigger] comma_pieces(s)[j];
        &&& T::spec_readable(p)
        &&& forall|i: int| 0 <= i < p.len() ==> T::spec_readable(seq![#[trigger] p[i]])
    }
}

proof fn lemma_comma_pieces_len(s: Seq<char>)
    ensures
        comma_pieces(s).len() >= 1,
    decreases s.len(),
{
    if s.len() > 0 {
        lemma_comma_pieces_len(s.drop_last());
    }
}

/// Read one piece onto the end of `items`.
fn read_piece<T: Specified>(piece: &str, spec_name: &str, items: &mut Vec<T>) -> (r: Result<(), String>)
    requires
        T::spec_readable(piece@),
        forall|i: int| 0 <= i < piece@.len() ==> T::spec_readable(seq![#[trigger] piece@[i]]),
    ensures
        r is Ok ==> final(items)@.len() >= old(items)@.len() && final(items)@.take(old(items)@.len() as int) == old(items)@
            && piece_read(piece@, final(items)@.skip(old(items)@.len() as int)),
        r matches Err(e) ==> piece_failed::<T>(piece@, spec_name@, e@),
{
    let whole = T::try_from_spec(piece);
    let ghost before = items@;
    let ghost w = whole;
    let r = read_piece_given(piece, whole, spec_name, items);
    proof {
        match w {
            Ok(x) => {
                assert(items@.take(before.len() as int) =~= before);
                assert(items@.skip(before.len() as int) =~= seq![x]);
            },
            Err(e1) => {
                assert(T::spec_read(piece@, Err(e1)));
            },
        }
    }
    r
}

/// Put onto the end of `items` what the piece gives, `whole` being what reading the piece whole gave: that item if
/// it was read, else the items read from each of its characters in turn. An error naming the piece if one of its
/// characters cannot be read either; none where no character's reading can fail.
pub fn read_piece_given<T: Specified>(piece: &str, whole: Result<T, String>, spec_name: &str, items: &mut Vec<T>) -> (r:
    Result<(), String>)
    requires
        T::spec_read(piece@, whole),
        forall|i: int| 0 <= i < piece@.len() ==> T::spec_readable(seq![#[trigger] piece@[i]]),
    ensures
        match whole {
            Ok(x) => r is Ok && final(items)@ == old(items)@.push(x),
            Err(_) => {
                &&& r is Ok ==> {
                    &&& final(items)@.len() == old(items)@.len() + piece@.len()
                    &&& final(items)@.take(old(items)@.len() as int) == old(items)@
                    &&& chars_read(piece@, final(items)@.skip(old(items)@.len() as int))
                }
                &&& r matches Err(e) ==> {
                    &&& e@ == piece@ + " is not a valid "@ + spec_name@ + " specification"@
                    &&& exists|i: int, e2: String| 0 <= i < piece@.len() && T::spec_read(seq![piece@[i]], Err(e2))
                }
                &&& (forall|i: int, e2: String| 0 <= i < piece@.len() ==> !T::spec_read(seq![piece@[i]], Err(e2))) ==> r is Ok
            },
        },
{
    match whole {
        Ok(item) => {
            items.push(item);
            Ok(())
        },
        Err(whole_error) => {
            let ghost before = items@;
            let n = piece.unicode_len();
            let mut i: usize = 0;
            while i < n
                invariant
                    whole is Err,
                    n == piece@.len(),
                    i <= n,
                    forall|j: int| 0 <= j < piece@.len() ==> T::spec_readable(seq![#[trigger] piece@[j]]),
                    items@.len() == before.len() + i,
                    items@.take(before.len() as int) == before,
                    forall|j: int| 0 <= j < i ==> T::spec_read(seq![piece@[j]], Ok(#[trigger] items@[before.len() + j])),
                decreases n - i,
            {
                let c = piece.substring_char(i, i + 1);
                proof {
                    assert(c@ =~= seq![piece@[i as int]]);
                }
                match T::try_from_spec(c) {
                    Ok(item) => {
                        let ghost pre = items@;
                        items.push(item);
                        proof {
                            assert(items@.take(before.len() as int) =~= pre.take(before.len() as int));
                            assert forall|j: int| 0 <= j < i + 1 implies T::spec_read(
                                seq![piece@[j]],
                                Ok(#[trigger] items@[before.len() + j]),
                            ) by {
                                if j < i {
                                    assert(items@[before.len() + j] == pre[before.len() + j]);
                                }
                            }
                        }
                    },
                    Err(char_error) => {
                        proof {
                            assert(T::spec_read(seq![piece@[i as int]], Err(char_error)));
                        }
                        let mut e = String::from_str(piece);
                        e.append(" is not a valid ");
                        e.append(spec_name);
                        e.append(" specification");
                        return Err(e);
                    },
                }
                i = i + 1;
            }
            proof {
                let chunk = items@.skip(before.len() as int);
                assert forall|j: int| 0 <= j < piece@.len() implies T::spec_read(seq![piece@[j]], Ok(#[trigger] chunk[j])) by {
                    assert(chunk[j] == items@[before.len() + j]);
                }
            }
            Ok(())
        },
    }
}

/// Read the items of a specification: pieces separated by commas, each read whole, or character by character
/// where it cannot be read whole. For example `r123,s0` gives a random AI with seed 123, then the skipping AI and
/// the AI of level 0, the piece `s0` being read character by character.
pub fn parse_spec<T: Specified>(spec: &str, spec_name: &str) -> (r: Result<Vec<T>, String>)
    requires
        spec_readable_all::<T>(spec@),
    ensures
        r matches Ok(items) ==> pieces_read(comma_pieces(spec@), items@),
        r matches Err(e) ==> exists|j: int|
            0 <= j < comma_pieces(spec@).len() && piece_failed::<T>(#[trigger] comma_pieces(spec@)[j], spec_name@, e@),
{
    let n = spec.unicode_len();
    let ghost s = spec@;
    let mut items: Vec<T> = Vec::new();
    let mut start: usize = 0;
    let mut k: usize = 0;
    proof {
        assert(s.take(0) =~= Seq::<char>::empty());
        assert(comma_pieces(s.take(0)).drop_last() =~= Seq::<Seq<char>>::empty());
        lemma_comma_pieces_prefix(s, 0);
    }
    while k < n
        invariant
            s == spec@,
            n == s.len(),
            start <= k <= n,
            spec_readable_all::<T>(s),
            comma_pieces(s.take(k as int)).last() == s.subrange(start as int, k as int),
            forall|j: int| 0 <= j < comma_pieces(s.take(k as int)).len() - 1 ==> #[trigger] comma_pieces(
                s.take(k as int),
            )[j] == comma_pieces(s)[j],
            comma_pieces(s.take(k as int)).len() <= comma_pieces(s).len(),
            pieces_read(comma_pieces(s.take(k as int)).drop_last(), items@),
        decreases n - k,
    {
        proof {
            lemma_comma_pieces_len(s.take(k as int));
            lemma_comma_pieces_prefix(s, k as int);
            lemma_comma_pieces_prefix(s, k as int + 1);
        }
        let c = spec.get_char(k);
        let ghost ps = comma_pieces(s.take(k as int));
        proof {
            assert(s.take(k as int + 1).drop_last() =~= s.take(k as int));
        }
        if c == ',' {
            let piece = spec.substring_char(start, k);
            proof {
                assert(piece@ == ps.last());
                assert(comma_pieces(s.take(k as int + 1)) == ps.push(Seq::<char>::empty()));
                assert(comma_pieces(s.take(k as int + 1))[ps.len() - 1] == ps.last());
                assert(ps.last() == comma_pieces(s)[ps.len() - 1]);
                assert(T::spec_readable(piece@));
            }
            let ghost before = items@;
            match read_piece(piece, spec_name, &mut items) {
                Ok(()) => {},
                Err(e) => {
                    return Err(e);
                },
            }
            proof {
                let ps1 = comma_pieces(s.take(k as int + 1));
                assert(ps1 == ps.push(Seq::<char>::empty()));
                assert(ps1.drop_last() == ps);
                assert(ps.drop_last() == ps1.drop_last().drop_last());
                let kk = before.len() as int;
                assert(items@.take(kk) == before);
                assert(pieces_read(ps, items@)) by {
                    assert(piece_read(ps.last(), items@.skip(kk)));
                    assert(pieces_read(ps.drop_last(), items@.take(kk)));
                }
                assert(s.subrange(k as int + 1, k as int + 1) =~= Seq::<char>::empty());
                assert forall|j: int| 0 <= j < ps1.len() - 1 implies #[trigger] ps1[j] == comma_pieces(s)[j] by {
                    if j < ps.len() - 1 {
                        assert(ps1[j] == ps[j]);
                    }
                }
            }
            start = k + 1;
        } else {
            proof {
                let ps1 = comma_pieces(s.take(k as int + 1));
                assert(ps1 == ps.update(ps.len() - 1, ps.last().push(c)));
                assert(ps1.drop_last() =~= ps.drop_last());
                assert(s.subrange(start as int, k as int + 1) =~= s.subrange(start as int, k as int).push(c));
                assert forall|j: int| 0 <= j < ps1.len() - 1 implies #[trigger] ps1[j] == comma_pieces(s)[j] by {
                    assert(ps1[j] == ps[j]);
                }
            }
        }
        k = k + 1;
    }
    proof {
        assert(s.take(n as int) =~= s);
        lemma_comma_pieces_len(s);
    }
    let piece = spec.substring_char(start, n);
    let ghost ps = comma_pieces(s);
    let ghost before = items@;
    proof {
        assert(piece@ == ps.last());
        assert(T::spec_readable(piece@));
    }
    match read_piece(piece, spec_name, &mut items) {
        Ok(()) => {},
        Err(e) => {
            return Err(e);
        },
    }
    proof {
        let kk = before.len() as int;
        assert(items@.take(kk) == before);
        assert(piece_read(ps.last(), items@.skip(kk)));
    }
    Ok(items)
}

/// The pieces of a prefix of the text, all but the last, are pieces of the text.
proof fn lemma_comma_pieces_prefix(s: Seq<char>, k: int)
    requires
        0 <= k <= s.len(),
    ensures
        comma_pieces(s.take(k)).len() <= comma_pieces(s).len(),
        forall|j: int| 0 <= j < comma_pieces(s.take(k)).len() - 1 ==> #[trigger] comma_pieces(s.take(k))[j]
            == comma_pieces(s)[j],
        comma_pieces(s.take(k)).last().is_prefix_of(comma_pieces(s)[comma_pieces(s.take(k)).len() - 1]),
    decreases s.len() - k,
{
    lemma_comma_pieces_len(s.take(k));
    if k == s.len() {
        assert(s.take(k) =~= s);
    } else {
        lemma_comma_pieces_prefix(s, k + 1);
        assert(s.take(k + 1).drop_last() =~= s.take(k));
        let ps = comma_pieces(s.take(k));
        let ps1 = comma_pieces(s.take(k + 1));
        if s[k] == ',' {
            assert(ps1 == ps.push(Seq::<char>::empty()));
            assert forall|j: int| 0 <= j < ps.len() - 1 implies #[trigger] ps[j] == comma_pieces(s)[j] by {
                assert(ps1[j] == ps[j]);
            }
            assert(ps1[ps.len() - 1] == ps.last());
        } else {
            assert(ps1 == ps.update(ps.len() - 1, ps.last().push(s[k])));
            assert forall|j: int| 0 <= j < ps.len() - 1 implies #[trigger] ps[j] == comma_pieces(s)[j] by {
                assert(ps1[j] == ps[j]);
            }
            assert(ps.last().is_prefix_of(ps1.last()));
        }
    }
}

/// Can the piece, and each of its characters, be read?
pub open spec fn piece_readable<T: Specified>(p: Seq<char>) -> bool {
    &&& T::spec_readable(p)
    &&& forall|i: int| 0 <= i < p.len() ==> T::spec_readable(seq![#[trigger] p[i]])
}

/// Can the piece, and each of its characters, be read?
fn piece_is_readable<T: Specified>(piece: &str) -> (b: bool)
    ensures
        b == piece_readable::<T>(piece@),
{
    if !T::readable(piece) {
        return false;
    }
    let n = piece.unicode_len();
    let mut i: usize = 0;
    while i < n
        invariant
            n == piece@.len(),
            i <= n,
            forall|j: int| 0 <= j < i ==> T::spec_readable(seq![#[trigger] piece@[j]]),
        decreases n - i,
    {
        let c = piece.substring_char(i, i + 1);
        proof {
            assert(c@ =~= seq![piece@[i as int]]);
        }
        if !T::readable(c) {
            return false;
        }
        i = i + 1;
    }
    true
}

/// Can every piece of the specification, and every character of each, be read? Reading the specification is
/// defined just when they can.
pub fn readable_spec<T: Specified>(spec: &str) -> (b: bool)
    ensures
        b == spec_readable_all::<T>(spec@),
{
    let n = spec.unicode_len();
    let ghost s = spec@;
    let mut start: usize = 0;
    let mut k: usize = 0;
    proof {
        assert(s.take(0) =~= Seq::<char>::empty());
        lemma_comma_pieces_prefix(s, 0);
    }
    while k < n
        invariant
            s == spec@,
            n == s.len(),
            start <= k <= n,
            comma_pieces(s.take(k as int)).last() == s.subrange(start as int, k as int),
            forall|j: int| 0 <= j < comma_pieces(s.take(k as int)).len() - 1 ==> #[trigger] comma_pieces(
                s.take(k as int),
            )[j] == comma_pieces(s)[j],
            comma_pieces(s.take(k as int)).len() <= comma_pieces(s).len(),
            forall|j: int| 0 <= j < comma_pieces(s.take(k as int)).len() - 1 ==> piece_readable::<T>(
                #[trigger] comma_pieces(s)[j],
            ),
        decreases n - k,
    {
        proof {
            lemma_comma_pieces_len(s.take(k as int));
            lemma_comma_pieces_prefix(s, k as int);
            lemma_comma_pieces_prefix(s, k as int + 1);
        }
        let c = spec.get_char(k);
        let ghost ps = comma_pieces(s.take(k as int));
        proof {
            assert(s.take(k as int + 1).drop_last() =~= s.take(k as int));
        }
        if c == ',' {
            let piece = spec.substring_char(start, k);
            proof {
                assert(piece@ == ps.last());
                assert(comma_pieces(s.take(k as int + 1)) == ps.push(Seq::<char>::empty()));
                assert(comma_pieces(s.take(k as int + 1))[ps.len() - 1] == ps.last());
                assert(ps.last() == comma_pieces(s)[ps.len() - 1]);
            }
            if !piece_is_readable::<T>(piece) {
                proof {
                    assert(!piece_readable::<T>(comma_pieces(s)[ps.len() - 1]));
                    if spec_readable_all::<T>(s) {
                        let p = comma_pieces(s)[ps.len() - 1];
                        assert(T::spec_readable(p));
                    }
                }
                return false;
            }
            proof {
                let ps1 = comma_pieces(s.take(k as int + 1));
                assert(ps1 == ps.push(Seq::<char>::empty()));
                assert(s.subrange(k as int + 1, k as int + 1) =~= Seq::<char>::empty());
                assert forall|j: int| 0 <= j < ps1.len() - 1 implies #[trigger] ps1[j] == comma_pieces(s)[j] by {
                    if j < ps.len() - 1 {
                        assert(ps1[j] == ps[j]);
                    }
                }
            }
            start = k + 1;
        } else {
            proof {
                let ps1 = comma_pieces(s.take(k as int + 1));
                assert(ps1 == ps.update(ps.len() - 1, ps.last().push(c)));
                assert(s.subrange(start as int, k as int + 1) =~= s.subrange(start as int, k as int).push(c));
                assert forall|j: int| 0 <= j < ps1.len() - 1 implies #[trigger] ps1[j] == comma_pieces(s)[j] by {
                    assert(ps1[j] == ps[j]);
                }
            }
        }
        k = k + 1;
    }
    proof {
        assert(s.take(n as int) =~= s);
        lemma_comma_pieces_len(s);
    }
    let piece = spec.substring_char(start, n);
    let ghost ps = comma_pieces(s);
    proof {
        assert(piece@ == ps.last());
    }
    let last_ok = piece_is_readable::<T>(piece);
    proof {
        if last_ok {
            assert forall|j: int| 0 <= j < ps.len() implies {
                let p = #[trigger] ps[j];
                &&& T::spec_readable(p)
                &&& forall|i: int| 0 <= i < p.len() ==> T::spec_readable(seq![#[trigger] p[i]])
            } by {
                assert(piece_readable::<T>(ps[j]));
            }
        } else {
            if spec_readable_all::<T>(s) {
                let p = ps[ps.len() - 1];
                assert(T::spec_readable(p));
            }
        }
    }
    last_ok
}

/// Read a specification of players, such as `hr123`.
pub fn parse_player_spec(spec: &str) -> (r: Result<Vec<PlayerType>, String>)
    requires
        spec_readable_all::<PlayerType>(spec@),
    ensures
        r matches Ok(items) ==> pieces_read(comma_pieces(spec@), items@),
        r matches Err(e) ==> exists|j: int|
            0 <= j < comma_pieces(spec@).len() && piece_failed::<PlayerType>(
                #[trigger] comma_pieces(spec@)[j],
                "player"@,
                e@,
            ),
{
    parse_spec(spec, "player")
}

/// Read a specification of AIs, such as `rr` or `r,ai/model.ai`.
pub fn parse_ai_spec(spec: &str) -> (r: Result<Vec<AISpec>, String>)
    requires
        spec_readable_all::<AISpec>(spec@),
    ensures
        r matches Ok(items) ==> pieces_read(comma_pieces(spec@), items@),
        r matches Err(e) ==> exists|j: int|
            0 <= j < comma_pieces(spec@).len() && piece_failed::<AISpec>(#[trigger] comma_pieces(spec@)[j], "AI"@, e@),
{
    parse_spec(spec, "AI")
}

} // verus!
