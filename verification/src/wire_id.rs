//! The names of wires and their order.

use vstd::prelude::*;
use vstd::string::is_ascii_spec_bytes;
use vstd::utf8::is_ascii_chars;
use crate::error::Error;
use crate::error::ErrorView;

verus! {

/// A wire id is a non-empty sequence of ascii lowercase letters.
pub open spec fn valid_id(s: Seq<char>) -> bool {
    s.len() > 0 && forall|i: int| 0 <= i < s.len() ==> 'a' <= #[trigger] s[i] <= 'z'
}

/// The order in which ids are listed: `a` comes strictly before `b` where
/// `a` is a proper prefix of `b`, or holds the smaller character at the first
/// place where the two differ.
pub open spec fn id_lt(a: Seq<char>, b: Seq<char>) -> bool
    decreases a.len(),
{
    if b.len() == 0 {
        false
    } else if a.len() == 0 {
        true
    } else if a[0] != b[0] {
        a[0] < b[0]
    } else {
        id_lt(a.drop_first(), b.drop_first())
    }
}

/// The name of a wire. Its view is the name as a sequence of characters.
#[derive(Debug, PartialEq, Eq, PartialOrd, Ord, Hash)]
pub struct WireId(String);

impl View for WireId {
    type V = Seq<char>;

    closed spec fn view(&self) -> Seq<char> {
        self.0@
    }
}

impl Clone for WireId {
    fn clone(&self) -> (r: Self)
        ensures
            r@ == self@,
    {
        proof {
            use_type_invariant(self);
        }
        WireId(self.0.clone())
    }
}

impl WireId {
    /// Every wire id is a valid one.
    #[verifier::type_invariant]
    pub open spec fn well_formed(&self) -> bool {
        valid_id(self@)
    }

    /// Whether `id` can name a wire.
    pub fn is_valid(id: &str) -> (b: bool)
        ensures
            b == valid_id(id@),
    {
        let mut seen = false;
        for c in it: id.chars()
            invariant
                it.seq() == id@,
                seen == (it.index() > 0),
                forall|i: int| 0 <= i < it.index() ==> 'a' <= #[trigger] id@[i] <= 'z',
        {
            if !('a' <= c && c <= 'z') {
                return false;
            }
            seen = true;
        }
        seen
    }

    /// Makes a wire id of `id`, or says why it is none.
    pub fn new(id: &str) -> (r: Result<WireId, Error>)
        ensures
            valid_id(id@) ==> r is Ok && r->Ok_0@ == id@,
            !valid_id(id@) ==> r is Err && r->Err_0@ == ErrorView::InvalidWireId(id@),
    {
        if WireId::is_valid(id) {
            Ok(WireId(id.to_owned()))
        } else {
            Err(Error::InvalidWireId(id.to_owned()))
        }
    }

    /// Makes a wire id of `id`, as [`WireId::new`] does.
    pub fn try_from(id: &str) -> (r: Result<WireId, Error>)
        ensures
            valid_id(id@) ==> r is Ok && r->Ok_0@ == id@,
            !valid_id(id@) ==> r is Err && r->Err_0@ == ErrorView::InvalidWireId(id@),
    {
        WireId::new(id)
    }

    /// The name as text.
    pub fn as_str(&self) -> (s: &str)
        ensures
            s@ == self@,
            valid_id(s@),
    {
        proof {
            use_type_invariant(self);
        }
        self.0.as_str()
    }

    /// The name as an owned text.
    pub fn to_string(&self) -> (s: String)
        ensures
            s@ == self@,
            valid_id(s@),
    {
        proof {
            use_type_invariant(self);
        }
        self.0.clone()
    }

    /// Whether the two ids are the same name.
    pub fn same_as(&self, other: &WireId) -> (b: bool)
        ensures
            b == (self@ == other@),
    {
        self.0 == other.0
    }

    /// Whether this id comes strictly before `other` in the order of ids.
    pub fn precedes(&self, other: &WireId) -> (b: bool)
        ensures
            b == id_lt(self@, other@),
    {
        let this = self.0.as_str();
        let that = other.0.as_str();
        proof {
            use_type_invariant(self);
            use_type_invariant(other);
            lemma_valid_is_ascii(this@);
            lemma_valid_is_ascii(that@);
            is_ascii_spec_bytes(this);
            is_ascii_spec_bytes(that);
        }
        let a = this.as_bytes();
        let b = that.as_bytes();
        let ghost sa = self.0@;
        let ghost sb = other.0@;
        let mut i: usize = 0;
        assert(sa.skip(0) =~= sa && sb.skip(0) =~= sb);
        while i < a.len() && i < b.len()
            invariant
                sa == self@,
                sb == other@,
                i <= a@.len(),
                i <= b@.len(),
                a@.len() == sa.len(),
                b@.len() == sb.len(),
                valid_id(sa),
                valid_id(sb),
                forall|k: int| 0 <= k < sa.len() ==> a@[k] == #[trigger] sa[k] as u8,
                forall|k: int| 0 <= k < sb.len() ==> b@[k] == #[trigger] sb[k] as u8,
                id_lt(sa, sb) == id_lt(sa.skip(i as int), sb.skip(i as int)),
            decreases a@.len() - i,
        {
            proof {
                let ra = sa.skip(i as int);
                let rb = sb.skip(i as int);
                assert(ra[0] == sa[i as int]);
                assert(rb[0] == sb[i as int]);
                assert(ra.drop_first() =~= sa.skip(i + 1));
                assert(rb.drop_first() =~= sb.skip(i + 1));
                assert('a' <= sa[i as int] <= 'z');
                assert('a' <= sb[i as int] <= 'z');
                assert(sa[i as int] as u8 == sa[i as int] as u32);
                assert(sb[i as int] as u8 == sb[i as int] as u32);
                assert((sa[i as int] < sb[i as int]) == ((sa[i as int] as u32) < (sb[i as int] as u32)));
                assert((sa[i as int] == sb[i as int]) == ((sa[i as int] as u32) == (sb[i as int] as u32)));
            }
            if a[i] != b[i] {
                proof {
                    let ra = sa.skip(i as int);
                    let rb = sb.skip(i as int);
                    assert(ra.len() > 0 && rb.len() > 0);
                    assert(ra[0] != rb[0]);
                    assert(id_lt(ra, rb) == (ra[0] < rb[0]));
                }
                return a[i] < b[i];
            }
            proof {
                let ra = sa.skip(i as int);
                let rb = sb.skip(i as int);
                assert(ra.len() > 0 && rb.len() > 0);
                assert(ra[0] == rb[0]);
                assert(id_lt(ra, rb) == id_lt(ra.drop_first(), rb.drop_first()));
            }
            i = i + 1;
        }
        i < b.len()
    }
}

/// Ascii lowercase letters are ascii characters.
proof fn lemma_valid_is_ascii(s: Seq<char>)
    requires
        valid_id(s),
    ensures
        is_ascii_chars(s),
{
    assert forall|i: int| 0 <= i < s.len() implies (#[trigger] s[i] as u32) < 128 by {
        assert('a' <= s[i] <= 'z');
    }
}

/// No id comes before itself.
pub proof fn lemma_id_lt_irreflexive(a: Seq<char>)
    ensures
        !id_lt(a, a),
    decreases a.len(),
{
    if a.len() > 0 {
        lemma_id_lt_irreflexive(a.drop_first());
    }
}

/// Of two different ids one comes before the other.
pub proof fn lemma_id_lt_total(a: Seq<char>, b: Seq<char>)
    requires
        a != b,
    ensures
        id_lt(a, b) || id_lt(b, a),
    decreases a.len(),
{
    if a.len() > 0 && b.len() > 0 && a[0] == b[0] {
        if a.drop_first() == b.drop_first() {
            assert(a =~= seq![a[0]] + a.drop_first());
            assert(b =~= seq![b[0]] + b.drop_first());
        }
        lemma_id_lt_total(a.drop_first(), b.drop_first());
    } else if a.len() == 0 && b.len() == 0 {
        assert(a =~= b);
    }
}

/// What comes before an id comes before all that the id comes before.
pub proof fn lemma_id_lt_transitive(a: Seq<char>, b: Seq<char>, c: Seq<char>)
    requires
        id_lt(a, b),
        id_lt(b, c),
    ensures
        id_lt(a, c),
    decreases a.len(),
{
    if a.len() > 0 && a[0] == b[0] && b[0] == c[0] {
        lemma_id_lt_transitive(a.drop_first(), b.drop_first(), c.drop_first());
    }
}

/// Each name of the list comes before the names that follow it: the list is
/// in order and holds no name twice.
pub open spec fn strictly_sorted(list: Seq<Seq<char>>) -> bool {
    forall|i: int, j: int| 0 <= i < j < list.len() ==> id_lt(#[trigger] list[i], #[trigger] list[j])
}

/// Two lists in strict order that hold the same names are the same list.
pub proof fn lemma_strictly_sorted_unique(a: Seq<Seq<char>>, b: Seq<Seq<char>>)
    requires
        strictly_sorted(a),
        strictly_sorted(b),
        forall|k: Seq<char>| a.contains(k) <==> b.contains(k),
    ensures
        a == b,
    decreases a.len(),
{
    if a.len() == 0 {
        if b.len() > 0 {
            assert(b.contains(b[0]));
        }
        assert(a =~= b);
    } else {
        assert(a.contains(a[0]));
        assert(b.len() > 0);
        assert(b.contains(b[0]));
        // The two least names are the same.
        let i = choose|i: int| 0 <= i < b.len() && b[i] == a[0];
        let j = choose|j: int| 0 <= j < a.len() && a[j] == b[0];
        if a[0] != b[0] {
            assert(i > 0 && j > 0);
            assert(id_lt(b[0], b[i]));
            assert(id_lt(a[0], a[j]));
            lemma_id_lt_transitive(a[0], b[0], a[0]);
            lemma_id_lt_irreflexive(a[0]);
        }
        let ra = a.drop_first();
        let rb = b.drop_first();
        assert forall|x: int, y: int| 0 <= x < y < ra.len() implies id_lt(
            #[trigger] ra[x],
            #[trigger] ra[y],
        ) by {
            assert(id_lt(a[x + 1], a[y + 1]));
        }
        assert forall|x: int, y: int| 0 <= x < y < rb.len() implies id_lt(
            #[trigger] rb[x],
            #[trigger] rb[y],
        ) by {
            assert(id_lt(b[x + 1], b[y + 1]));
        }
        assert forall|k: Seq<char>| ra.contains(k) <==> rb.contains(k) by {
            if ra.contains(k) {
                let x = choose|x: int| 0 <= x < ra.len() && ra[x] == k;
                assert(a[x + 1] == k);
                assert(a.contains(k));
                assert(id_lt(a[0], a[x + 1]));
                let y = choose|y: int| 0 <= y < b.len() && b[y] == k;
                if y == 0 {
                    lemma_id_lt_irreflexive(k);
                }
                assert(rb[y - 1] == k);
            }
            if rb.contains(k) {
                let y = choose|y: int| 0 <= y < rb.len() && rb[y] == k;
                assert(b[y + 1] == k);
                assert(b.contains(k));
                assert(id_lt(b[0], b[y + 1]));
                let x = choose|x: int| 0 <= x < a.len() && a[x] == k;
                if x == 0 {
                    lemma_id_lt_irreflexive(k);
                }
                assert(ra[x - 1] == k);
            }
        }
        lemma_strictly_sorted_unique(ra, rb);
        assert(a =~= seq![a[0]] + ra);
        assert(b =~= seq![b[0]] + rb);
    }
}

} // verus!
