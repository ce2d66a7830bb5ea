//! The canvas store: serialization of the whole collection to its durable
//! document, and deserialization back.
//!
//! The document is one object with a single field `canvases`, an array of
//! objects `{"id": number, "content": array of array of string}`, written
//! without extra whitespace and with `"` and `\` escaped inside strings.
//! `ser_collection` is the exact definition of that document. The store
//! accepts a document exactly when it is the serialization of some
//! collection, and the document determines that collection, so a load
//! returns precisely what was saved and rejects everything else as
//! `Corrupt`. Writing the document to a durable medium, and doing so
//! atomically, is the caller's concern.

use vstd::prelude::*;

use crate::canvas::CanvasV;
use crate::canvas::Canvas;
use crate::canvas::Canvases;
use crate::canvas::GridV;

verus! {

/// A failure of the store.
#[derive(Clone, Copy, Debug, PartialEq, Eq, Structural)]
pub enum StorageError {
    /// The durable medium could not be read or written.
    Unavailable,
    /// The document read is not a well-formed collection document.
    Corrupt,
}

/// One character of a string cell as it is written in the document: `"` and
/// `\` get a backslash escape, every other character stands for itself.
pub open spec fn esc_char(c: char) -> Seq<char> {
    if c == '"' {
        seq!['\\', '"']
    } else if c == '\\' {
        seq!['\\', '\\']
    } else {
        seq![c]
    }
}

/// A string cell's characters as written in the document.
pub open spec fn esc_str(s: Seq<char>) -> Seq<char>
    decreases s.len(),
{
    if s.len() == 0 {
        Seq::empty()
    } else {
        esc_str(s.drop_last()) + esc_char(s.last())
    }
}

/// A quoted, escaped string cell.
pub open spec fn ser_string(s: Seq<char>) -> Seq<char> {
    seq!['"'] + esc_str(s) + seq!['"']
}

/// The decimal digit characters.
pub open spec fn digit_char(d: u32) -> char {
    if d == 0 {
        '0'
    } else if d == 1 {
        '1'
    } else if d == 2 {
        '2'
    } else if d == 3 {
        '3'
    } else if d == 4 {
        '4'
    } else if d == 5 {
        '5'
    } else if d == 6 {
        '6'
    } else if d == 7 {
        '7'
    } else if d == 8 {
        '8'
    } else {
        '9'
    }
}

/// An id in decimal, most significant digit first, no leading zeros.
pub open spec fn ser_u32(n: u32) -> Seq<char>
    decreases n,
{
    if n < 10 {
        seq![digit_char(n)]
    } else {
        ser_u32(n / 10).push(digit_char(n % 10))
    }
}

/// Comma-joined string cells of one row.
pub open spec fn ser_cells(row: Seq<Seq<char>>) -> Seq<char>
    decreases row.len(),
{
    if row.len() == 0 {
        Seq::empty()
    } else if row.len() == 1 {
        ser_string(row[0])
    } else {
        ser_cells(row.drop_last()) + seq![','] + ser_string(row.last())
    }
}

/// One row as a bracketed array of string cells.
pub open spec fn ser_row(row: Seq<Seq<char>>) -> Seq<char> {
    seq!['['] + ser_cells(row) + seq![']']
}

/// Comma-joined rows of one grid.
pub open spec fn ser_rows(g: GridV) -> Seq<char>
    decreases g.len(),
{
    if g.len() == 0 {
        Seq::empty()
    } else if g.len() == 1 {
        ser_row(g[0])
    } else {
        ser_rows(g.drop_last()) + seq![','] + ser_row(g.last())
    }
}

/// A grid as a bracketed array of rows.
pub open spec fn ser_grid(g: GridV) -> Seq<char> {
    seq!['['] + ser_rows(g) + seq![']']
}

/// The label before a canvas's id.
pub open spec fn lit_id() -> Seq<char> {
    seq!['"', 'i', 'd', '"', ':']
}

/// The label before a canvas's content.
pub open spec fn lit_content() -> Seq<char> {
    seq![',', '"', 'c', 'o', 'n', 't', 'e', 'n', 't', '"', ':']
}

/// One canvas as an object with its id and content.
pub open spec fn ser_canvas(cv: CanvasV) -> Seq<char> {
    seq!['{'] + lit_id() + ser_u32(cv.id) + lit_content() + ser_grid(cv.content) + seq!['}']
}

/// Comma-joined canvases of the collection.
pub open spec fn ser_canvases(s: Seq<CanvasV>) -> Seq<char>
    decreases s.len(),
{
    if s.len() == 0 {
        Seq::empty()
    } else if s.len() == 1 {
        ser_canvas(s[0])
    } else {
        ser_canvases(s.drop_last()) + seq![','] + ser_canvas(s.last())
    }
}

/// The label opening the collection document.
pub open spec fn lit_open() -> Seq<char> {
    seq!['{', '"', 'c', 'a', 'n', 'v', 'a', 's', 'e', 's', '"', ':', '[']
}

/// The label closing the collection document.
pub open spec fn lit_close() -> Seq<char> {
    seq![']', '}']
}

/// The whole collection document.
pub open spec fn ser_collection(s: Seq<CanvasV>) -> Seq<char> {
    lit_open() + ser_canvases(s) + lit_close()
}

/// Whether a character is a decimal digit.
pub open spec fn is_digit(c: char) -> bool {
    c == '0' || c == '1' || c == '2' || c == '3' || c == '4' || c == '5' || c == '6' || c == '7'
        || c == '8' || c == '9'
}

/// Stripping one equal prefix from an equality of concatenations.
proof fn lemma_cancel_prefix(p: Seq<char>, a: Seq<char>, b: Seq<char>)
    requires
        p + a == p + b,
    ensures
        a == b,
{
    assert((p + a).skip(p.len() as int) =~= a);
    assert((p + b).skip(p.len() as int) =~= b);
}

/// Escaping distributes over concatenation.
proof fn lemma_esc_str_add(a: Seq<char>, b: Seq<char>)
    ensures
        esc_str(a + b) == esc_str(a) + esc_str(b),
    decreases b.len(),
{
    if b.len() == 0 {
        assert(a + b =~= a);
        assert(esc_str(a) + esc_str(b) =~= esc_str(a));
    } else {
        assert((a + b).drop_last() =~= a + b.drop_last());
        assert((a + b).last() == b.last());
        lemma_esc_str_add(a, b.drop_last());
        assert(esc_str(a) + esc_str(b) =~= esc_str(a) + (esc_str(b.drop_last()) + esc_char(
            b.last(),
        )));
    }
}

/// Escaping a nonempty string starts with the first character's escape.
proof fn lemma_esc_str_head(s: Seq<char>)
    requires
        s.len() > 0,
    ensures
        esc_str(s) == esc_char(s[0]) + esc_str(s.skip(1)),
{
    assert(s =~= seq![s[0]] + s.skip(1));
    lemma_esc_str_add(seq![s[0]], s.skip(1));
    assert(seq![s[0]].drop_last() =~= Seq::<char>::empty());
    assert(esc_str(Seq::<char>::empty()) == Seq::<char>::empty());
    assert(seq![s[0]].last() == s[0]);
    assert(esc_str(seq![s[0]]) =~= esc_char(s[0]));
}

/// Quoted escaped strings are uniquely decodable: equal tails after equal
/// openings force equal strings and equal rests.
proof fn lemma_esc_cancel(s1: Seq<char>, s2: Seq<char>, r1: Seq<char>, r2: Seq<char>)
    requires
        esc_str(s1) + seq!['"'] + r1 == esc_str(s2) + seq!['"'] + r2,
    ensures
        s1 == s2,
        r1 == r2,
    decreases s1.len(),
{
    let t1 = esc_str(s1) + seq!['"'] + r1;
    let t2 = esc_str(s2) + seq!['"'] + r2;
    if s1.len() == 0 {
        assert(t1[0] == '"');
        if s2.len() > 0 {
            lemma_esc_str_head(s2);
            assert(t2[0] == esc_char(s2[0])[0]);
            assert(esc_char(s2[0])[0] != '"');
            assert(false);
        }
        lemma_cancel_prefix(seq!['"'], r1, r2);
        assert(esc_str(s1) + seq!['"'] =~= seq!['"']);
        assert(esc_str(s2) + seq!['"'] =~= seq!['"']);
        assert(seq!['"'] + r1 =~= t1);
        assert(seq!['"'] + r2 =~= t2);
    } else if s2.len() == 0 {
        lemma_esc_str_head(s1);
        assert(t1[0] == esc_char(s1[0])[0]);
        assert(esc_char(s1[0])[0] != '"');
        assert(t2[0] == '"');
        assert(false);
    } else {
        lemma_esc_str_head(s1);
        lemma_esc_str_head(s2);
        let c1 = s1[0];
        let c2 = s2[0];
        let e1 = esc_char(c1);
        let e2 = esc_char(c2);
        let u1 = esc_str(s1.skip(1)) + seq!['"'] + r1;
        let u2 = esc_str(s2.skip(1)) + seq!['"'] + r2;
        assert(t1 =~= e1 + u1);
        assert(t2 =~= e2 + u2);
        assert(t1[0] == e1[0]);
        assert(t2[0] == e2[0]);
        if c1 == '"' || c1 == '\\' {
            // the first character is escaped on both sides
            assert(e1[0] == '\\');
            assert(c2 == '"' || c2 == '\\') by {
                if c2 != '"' && c2 != '\\' {
                    assert(e2[0] == c2);
                    assert(c2 == '\\');
                }
            }
            assert(t1[1] == e1[1]);
            assert(t2[1] == e2[1]);
            assert(e1[1] == c1);
            assert(e2[1] == c2);
            assert(c1 == c2);
            lemma_cancel_prefix(e1, u1, u2);
        } else {
            assert(e1[0] == c1);
            if c2 == '"' || c2 == '\\' {
                assert(e2[0] == '\\');
                assert(c1 == '\\');
                assert(false);
            }
            assert(e2[0] == c2);
            assert(c1 == c2);
            lemma_cancel_prefix(e1, u1, u2);
        }
        lemma_esc_cancel(s1.skip(1), s2.skip(1), r1, r2);
        assert(s1 =~= seq![c1] + s1.skip(1));
        assert(s2 =~= seq![c2] + s2.skip(1));
    }
}

/// Every character written for an id is a digit.
proof fn lemma_u32_digits(n: u32)
    ensures
        ser_u32(n).len() >= 1,
        forall|i: int| 0 <= i < ser_u32(n).len() ==> is_digit(#[trigger] ser_u32(n)[i]),
    decreases n,
{
    if n >= 10 {
        lemma_u32_digits(n / 10);
    }
}

/// Equal decimal writings mean equal ids.
proof fn lemma_u32_eq(n1: u32, n2: u32)
    requires
        ser_u32(n1) == ser_u32(n2),
    ensures
        n1 == n2,
    decreases n1,
{
    lemma_u32_digits(n1);
    lemma_u32_digits(n2);
    if n1 < 10 && n2 < 10 {
        assert(ser_u32(n1)[0] == digit_char(n1));
        assert(ser_u32(n2)[0] == digit_char(n2));
    } else if n1 >= 10 && n2 >= 10 {
        assert(ser_u32(n1).last() == digit_char(n1 % 10));
        assert(ser_u32(n2).last() == digit_char(n2 % 10));
        assert(ser_u32(n1).drop_last() =~= ser_u32(n1 / 10));
        assert(ser_u32(n2).drop_last() =~= ser_u32(n2 / 10));
        lemma_u32_eq(n1 / 10, n2 / 10);
        assert(n1 % 10 == n2 % 10);
    } else {
        assert(ser_u32(n1).len() == ser_u32(n2).len());
        if n1 >= 10 {
            assert(ser_u32(n1).len() == ser_u32(n1 / 10).len() + 1);
        }
        if n2 >= 10 {
            assert(ser_u32(n2).len() == ser_u32(n2 / 10).len() + 1);
        }
        assert(false);
    }
}

/// Ids followed by a non-digit are uniquely decodable.
proof fn lemma_u32_cancel(n1: u32, n2: u32, r1: Seq<char>, r2: Seq<char>)
    requires
        ser_u32(n1) + r1 == ser_u32(n2) + r2,
        r1.len() > 0 && !is_digit(r1[0]),
        r2.len() > 0 && !is_digit(r2[0]),
    ensures
        n1 == n2,
        r1 == r2,
{
    lemma_u32_digits(n1);
    lemma_u32_digits(n2);
    let d1 = ser_u32(n1);
    let d2 = ser_u32(n2);
    let t = d1 + r1;
    if d1.len() < d2.len() {
        assert(t[d1.len() as int] == r1[0]);
        assert(t[d1.len() as int] == d2[d1.len() as int]);
        assert(is_digit(d2[d1.len() as int]));
        assert(false);
    }
    if d2.len() < d1.len() {
        assert(t[d2.len() as int] == r2[0]);
        assert(t[d2.len() as int] == d1[d2.len() as int]);
        assert(is_digit(d1[d2.len() as int]));
        assert(false);
    }
    assert forall|i: int| 0 <= i < d1.len() implies d1[i] == d2[i] by {
        assert(t[i] == d1[i]);
        assert((d2 + r2)[i] == d2[i]);
    }
    assert(d1 =~= d2);
    lemma_u32_eq(n1, n2);
    lemma_cancel_prefix(d1, r1, r2);
}

/// A nonempty row's cells start with the first cell and continue with the
/// comma-joined rest.
proof fn lemma_cells_head(r: Seq<Seq<char>>)
    requires
        r.len() >= 1,
    ensures
        ser_cells(r) == ser_string(r[0]) + (if r.len() == 1 {
            Seq::<char>::empty()
        } else {
            seq![','] + ser_cells(r.skip(1))
        }),
    decreases r.len(),
{
    if r.len() == 1 {
        assert(ser_cells(r) =~= ser_string(r[0]) + Seq::<char>::empty());
    } else {
        let d = r.drop_last();
        lemma_cells_head(d);
        assert(d[0] == r[0]);
        let tail = r.skip(1);
        assert(tail.len() == r.len() - 1);
        if d.len() == 1 {
            assert(tail =~= seq![r[1]]);
            assert(ser_cells(tail) == ser_string(tail[0]));
            assert(ser_cells(r) =~= ser_string(r[0]) + (seq![','] + ser_cells(tail)));
        } else {
            assert(tail.drop_last() =~= d.skip(1));
            assert(tail.last() == r.last());
            assert(ser_cells(tail) == ser_cells(d.skip(1)) + seq![','] + ser_string(r.last()));
            assert(ser_cells(r) == ser_cells(d) + seq![','] + ser_string(r.last()));
            assert(ser_cells(d) == ser_string(d[0]) + (seq![','] + ser_cells(d.skip(1))));
            assert(ser_cells(r) =~= ser_string(r[0]) + (seq![','] + ser_cells(tail)));
        }
    }
}

/// Comma-joined cells closed by a bracket are uniquely decodable.
#[verifier::rlimit(50)]
proof fn lemma_cells_cancel(r1: Seq<Seq<char>>, r2: Seq<Seq<char>>, t1: Seq<char>, t2: Seq<char>)
    requires
        ser_cells(r1) + seq![']'] + t1 == ser_cells(r2) + seq![']'] + t2,
    ensures
        r1 == r2,
        t1 == t2,
    decreases r1.len(),
{
    let w1 = ser_cells(r1) + seq![']'] + t1;
    let w2 = ser_cells(r2) + seq![']'] + t2;
    if r1.len() == 0 && r2.len() == 0 {
        assert(w1 =~= seq![']'] + t1);
        assert(w2 =~= seq![']'] + t2);
        lemma_cancel_prefix(seq![']'], t1, t2);
        assert(r1 =~= r2);
    } else if r1.len() == 0 {
        lemma_cells_head(r2);
        assert(w1[0] == ']');
        assert(w2[0] == ser_string(r2[0])[0]);
        assert(ser_string(r2[0])[0] == '"');
        assert(false);
    } else if r2.len() == 0 {
        lemma_cells_head(r1);
        assert(w2[0] == ']');
        assert(w1[0] == ser_string(r1[0])[0]);
        assert(ser_string(r1[0])[0] == '"');
        assert(false);
    } else {
        lemma_cells_head(r1);
        lemma_cells_head(r2);
        let a1 = if r1.len() == 1 {
            Seq::<char>::empty()
        } else {
            seq![','] + ser_cells(r1.skip(1))
        };
        let a2 = if r2.len() == 1 {
            Seq::<char>::empty()
        } else {
            seq![','] + ser_cells(r2.skip(1))
        };
        let u1 = a1 + seq![']'] + t1;
        let u2 = a2 + seq![']'] + t2;
        assert(w1 =~= seq!['"'] + (esc_str(r1[0]) + seq!['"'] + u1));
        assert(w2 =~= seq!['"'] + (esc_str(r2[0]) + seq!['"'] + u2));
        lemma_cancel_prefix(seq!['"'], esc_str(r1[0]) + seq!['"'] + u1, esc_str(r2[0]) + seq!['"'] + u2);
        lemma_esc_cancel(r1[0], r2[0], u1, u2);
        if r1.len() == 1 && r2.len() == 1 {
            assert(u1 =~= seq![']'] + t1);
            assert(u2 =~= seq![']'] + t2);
            lemma_cancel_prefix(seq![']'], t1, t2);
            assert(r1 =~= r2);
        } else if r1.len() == 1 {
            assert(u1[0] == ']');
            assert(u2[0] == ',');
            assert(false);
        } else if r2.len() == 1 {
            assert(u1[0] == ',');
            assert(u2[0] == ']');
            assert(false);
        } else {
            assert(u1 =~= seq![','] + (ser_cells(r1.skip(1)) + seq![']'] + t1));
            assert(u2 =~= seq![','] + (ser_cells(r2.skip(1)) + seq![']'] + t2));
            lemma_cancel_prefix(
                seq![','],
                ser_cells(r1.skip(1)) + seq![']'] + t1,
                ser_cells(r2.skip(1)) + seq![']'] + t2,
            );
            lemma_cells_cancel(r1.skip(1), r2.skip(1), t1, t2);
            assert(r1.len() == r2.len());
            assert forall|i: int| 0 <= i < r1.len() implies r1[i] == r2[i] by {
                if i > 0 {
                    assert(r1.skip(1)[i - 1] == r2.skip(1)[i - 1]);
                }
            }
            assert(r1 =~= r2);
        }
    }
}

/// Bracketed rows are uniquely decodable.
proof fn lemma_row_cancel(x1: Seq<Seq<char>>, x2: Seq<Seq<char>>, u1: Seq<char>, u2: Seq<char>)
    requires
        ser_row(x1) + u1 == ser_row(x2) + u2,
    ensures
        x1 == x2,
        u1 == u2,
{
    assert(ser_row(x1) + u1 =~= seq!['['] + (ser_cells(x1) + seq![']'] + u1));
    assert(ser_row(x2) + u2 =~= seq!['['] + (ser_cells(x2) + seq![']'] + u2));
    lemma_cancel_prefix(seq!['['], ser_cells(x1) + seq![']'] + u1, ser_cells(x2) + seq![']'] + u2);
    lemma_cells_cancel(x1, x2, u1, u2);
}

/// A nonempty grid's rows start with the first row and continue with the
/// comma-joined rest.
proof fn lemma_rows_head(g: GridV)
    requires
        g.len() >= 1,
    ensures
        ser_rows(g) == ser_row(g[0]) + (if g.len() == 1 {
            Seq::<char>::empty()
        } else {
            seq![','] + ser_rows(g.skip(1))
        }),
    decreases g.len(),
{
    if g.len() == 1 {
        assert(ser_rows(g) =~= ser_row(g[0]) + Seq::<char>::empty());
    } else {
        let d = g.drop_last();
        lemma_rows_head(d);
        assert(d[0] == g[0]);
        let tail = g.skip(1);
        if d.len() == 1 {
            assert(tail =~= seq![g[1]]);
            assert(ser_rows(tail) == ser_row(tail[0]));
            assert(ser_rows(g) =~= ser_row(g[0]) + (seq![','] + ser_rows(tail)));
        } else {
            assert(tail.drop_last() =~= d.skip(1));
            assert(tail.last() == g.last());
            assert(ser_rows(tail) == ser_rows(d.skip(1)) + seq![','] + ser_row(g.last()));
            assert(ser_rows(g) == ser_rows(d) + seq![','] + ser_row(g.last()));
            assert(ser_rows(d) == ser_row(d[0]) + (seq![','] + ser_rows(d.skip(1))));
            assert(ser_rows(g) =~= ser_row(g[0]) + (seq![','] + ser_rows(tail)));
        }
    }
}

/// Comma-joined rows closed by a bracket are uniquely decodable.
#[verifier::rlimit(50)]
proof fn lemma_rows_cancel(g1: GridV, g2: GridV, t1: Seq<char>, t2: Seq<char>)
    requires
        ser_rows(g1) + seq![']'] + t1 == ser_rows(g2) + seq![']'] + t2,
    ensures
        g1 == g2,
        t1 == t2,
    decreases g1.len(),
{
    let w1 = ser_rows(g1) + seq![']'] + t1;
    let w2 = ser_rows(g2) + seq![']'] + t2;
    if g1.len() == 0 && g2.len() == 0 {
        assert(w1 =~= seq![']'] + t1);
        assert(w2 =~= seq![']'] + t2);
        lemma_cancel_prefix(seq![']'], t1, t2);
        assert(g1 =~= g2);
    } else if g1.len() == 0 {
        lemma_rows_head(g2);
        assert(w1[0] == ']');
        assert(w2[0] == ser_row(g2[0])[0]);
        assert(ser_row(g2[0])[0] == '[');
        assert(false);
    } else if g2.len() == 0 {
        lemma_rows_head(g1);
        assert(w2[0] == ']');
        assert(w1[0] == ser_row(g1[0])[0]);
        assert(ser_row(g1[0])[0] == '[');
        assert(false);
    } else {
        lemma_rows_head(g1);
        lemma_rows_head(g2);
        let a1 = if g1.len() == 1 {
            Seq::<char>::empty()
        } else {
            seq![','] + ser_rows(g1.skip(1))
        };
        let a2 = if g2.len() == 1 {
            Seq::<char>::empty()
        } else {
            seq![','] + ser_rows(g2.skip(1))
        };
        let u1 = a1 + seq![']'] + t1;
        let u2 = a2 + seq![']'] + t2;
        assert(w1 =~= ser_row(g1[0]) + u1);
        assert(w2 =~= ser_row(g2[0]) + u2);
        lemma_row_cancel(g1[0], g2[0], u1, u2);
        if g1.len() == 1 && g2.len() == 1 {
            assert(u1 =~= seq![']'] + t1);
            assert(u2 =~= seq![']'] + t2);
            lemma_cancel_prefix(seq![']'], t1, t2);
            assert(g1 =~= g2);
        } else if g1.len() == 1 {
            assert(u1[0] == ']');
            assert(u2[0] == ',');
            assert(false);
        } else if g2.len() == 1 {
            assert(u1[0] == ',');
            assert(u2[0] == ']');
            assert(false);
        } else {
            assert(u1 =~= seq![','] + (ser_rows(g1.skip(1)) + seq![']'] + t1));
            assert(u2 =~= seq![','] + (ser_rows(g2.skip(1)) + seq![']'] + t2));
            lemma_cancel_prefix(
                seq![','],
                ser_rows(g1.skip(1)) + seq![']'] + t1,
                ser_rows(g2.skip(1)) + seq![']'] + t2,
            );
            lemma_rows_cancel(g1.skip(1), g2.skip(1), t1, t2);
            assert(g1.len() == g2.len());
            assert forall|i: int| 0 <= i < g1.len() implies g1[i] == g2[i] by {
                if i > 0 {
                    assert(g1.skip(1)[i - 1] == g2.skip(1)[i - 1]);
                }
            }
            assert(g1 =~= g2);
        }
    }
}

/// Bracketed grids are uniquely decodable.
proof fn lemma_grid_cancel(x1: GridV, x2: GridV, u1: Seq<char>, u2: Seq<char>)
    requires
        ser_grid(x1) + u1 == ser_grid(x2) + u2,
    ensures
        x1 == x2,
        u1 == u2,
{
    assert(ser_grid(x1) + u1 =~= seq!['['] + (ser_rows(x1) + seq![']'] + u1));
    assert(ser_grid(x2) + u2 =~= seq!['['] + (ser_rows(x2) + seq![']'] + u2));
    lemma_cancel_prefix(seq!['['], ser_rows(x1) + seq![']'] + u1, ser_rows(x2) + seq![']'] + u2);
    lemma_rows_cancel(x1, x2, u1, u2);
}

/// Canvas objects are uniquely decodable.
#[verifier::rlimit(50)]
proof fn lemma_canvas_cancel(c1: CanvasV, c2: CanvasV, u1: Seq<char>, u2: Seq<char>)
    requires
        ser_canvas(c1) + u1 == ser_canvas(c2) + u2,
    ensures
        c1 == c2,
        u1 == u2,
{
    let p = seq!['{'] + lit_id();
    let r1 = lit_content() + (ser_grid(c1.content) + (seq!['}'] + u1));
    let r2 = lit_content() + (ser_grid(c2.content) + (seq!['}'] + u2));
    assert(ser_canvas(c1) + u1 =~= p + (ser_u32(c1.id) + r1));
    assert(ser_canvas(c2) + u2 =~= p + (ser_u32(c2.id) + r2));
    lemma_cancel_prefix(p, ser_u32(c1.id) + r1, ser_u32(c2.id) + r2);
    assert(r1[0] == ',' && !is_digit(','));
    assert(r2[0] == ',');
    lemma_u32_cancel(c1.id, c2.id, r1, r2);
    lemma_cancel_prefix(
        lit_content(),
        ser_grid(c1.content) + (seq!['}'] + u1),
        ser_grid(c2.content) + (seq!['}'] + u2),
    );
    lemma_grid_cancel(c1.content, c2.content, seq!['}'] + u1, seq!['}'] + u2);
    lemma_cancel_prefix(seq!['}'], u1, u2);
    assert(c1 =~~= c2);
}

/// A nonempty collection's canvases start with the first canvas and
/// continue with the comma-joined rest.
proof fn lemma_canvases_head(s: Seq<CanvasV>)
    requires
        s.len() >= 1,
    ensures
        ser_canvases(s) == ser_canvas(s[0]) + (if s.len() == 1 {
            Seq::<char>::empty()
        } else {
            seq![','] + ser_canvases(s.skip(1))
        }),
    decreases s.len(),
{
    if s.len() == 1 {
        assert(ser_canvases(s) =~= ser_canvas(s[0]) + Seq::<char>::empty());
    } else {
        let d = s.drop_last();
        lemma_canvases_head(d);
        assert(d[0] == s[0]);
        let tail = s.skip(1);
        if d.len() == 1 {
            assert(tail =~= seq![s[1]]);
            assert(ser_canvases(tail) == ser_canvas(tail[0]));
            assert(ser_canvases(s) =~= ser_canvas(s[0]) + (seq![','] + ser_canvases(tail)));
        } else {
            assert(tail.drop_last() =~= d.skip(1));
            assert(tail.last() == s.last());
            assert(ser_canvases(tail) == ser_canvases(d.skip(1)) + seq![','] + ser_canvas(s.last()));
            assert(ser_canvases(s) == ser_canvases(d) + seq![','] + ser_canvas(s.last()));
            assert(ser_canvases(d) == ser_canvas(d[0]) + (seq![','] + ser_canvases(d.skip(1))));
            assert(ser_canvases(s) =~= ser_canvas(s[0]) + (seq![','] + ser_canvases(tail)));
        }
    }
}

/// Comma-joined canvases closed by a bracket are uniquely decodable.
#[verifier::rlimit(50)]
proof fn lemma_canvases_cancel(s1: Seq<CanvasV>, s2: Seq<CanvasV>, t1: Seq<char>, t2: Seq<char>)
    requires
        ser_canvases(s1) + seq![']'] + t1 == ser_canvases(s2) + seq![']'] + t2,
    ensures
        s1 == s2,
        t1 == t2,
    decreases s1.len(),
{
    let w1 = ser_canvases(s1) + seq![']'] + t1;
    let w2 = ser_canvases(s2) + seq![']'] + t2;
    if s1.len() == 0 && s2.len() == 0 {
        assert(w1 =~= seq![']'] + t1);
        assert(w2 =~= seq![']'] + t2);
        lemma_cancel_prefix(seq![']'], t1, t2);
        assert(s1 =~= s2);
    } else if s1.len() == 0 {
        lemma_canvases_head(s2);
        assert(w1[0] == ']');
        assert(ser_canvas(s2[0]) =~= seq!['{'] + (lit_id() + ser_u32(s2[0].id) + lit_content()
            + ser_grid(s2[0].content) + seq!['}']));
        assert(w2[0] == ser_canvas(s2[0])[0]);
        assert(false);
    } else if s2.len() == 0 {
        lemma_canvases_head(s1);
        assert(w2[0] == ']');
        assert(ser_canvas(s1[0]) =~= seq!['{'] + (lit_id() + ser_u32(s1[0].id) + lit_content()
            + ser_grid(s1[0].content) + seq!['}']));
        assert(w1[0] == ser_canvas(s1[0])[0]);
        assert(false);
    } else {
        lemma_canvases_head(s1);
        lemma_canvases_head(s2);
        let a1 = if s1.len() == 1 {
            Seq::<char>::empty()
        } else {
            seq![','] + ser_canvases(s1.skip(1))
        };
        let a2 = if s2.len() == 1 {
            Seq::<char>::empty()
        } else {
            seq![','] + ser_canvases(s2.skip(1))
        };
        let u1 = a1 + seq![']'] + t1;
        let u2 = a2 + seq![']'] + t2;
        assert(w1 =~= ser_canvas(s1[0]) + u1);
        assert(w2 =~= ser_canvas(s2[0]) + u2);
        lemma_canvas_cancel(s1[0], s2[0], u1, u2);
        if s1.len() == 1 && s2.len() == 1 {
            assert(u1 =~= seq![']'] + t1);
            assert(u2 =~= seq![']'] + t2);
            lemma_cancel_prefix(seq![']'], t1, t2);
            assert(s1 =~= s2);
        } else if s1.len() == 1 {
            assert(u1[0] == ']');
            assert(u2[0] == ',');
            assert(false);
        } else if s2.len() == 1 {
            assert(u1[0] == ',');
            assert(u2[0] == ']');
            assert(false);
        } else {
            assert(u1 =~= seq![','] + (ser_canvases(s1.skip(1)) + seq![']'] + t1));
            assert(u2 =~= seq![','] + (ser_canvases(s2.skip(1)) + seq![']'] + t2));
            lemma_cancel_prefix(
                seq![','],
                ser_canvases(s1.skip(1)) + seq![']'] + t1,
                ser_canvases(s2.skip(1)) + seq![']'] + t2,
            );
            lemma_canvases_cancel(s1.skip(1), s2.skip(1), t1, t2);
            assert(s1.len() == s2.len());
            assert forall|i: int| 0 <= i < s1.len() implies s1[i] == s2[i] by {
                if i > 0 {
                    assert(s1.skip(1)[i - 1] == s2.skip(1)[i - 1]);
                }
            }
            assert(s1 =~= s2);
        }
    }
}

/// The collection document determines the collection: two collections with
/// the same document are the same, so a load that accepts a document names
/// exactly the collection that was saved.
pub proof fn lemma_document_determines_collection(a: Seq<CanvasV>, b: Seq<CanvasV>)
    requires
        ser_collection(a) == ser_collection(b),
    ensures
        a == b,
{
    assert(ser_collection(a) =~= lit_open() + (ser_canvases(a) + seq![']'] + seq!['}']));
    assert(ser_collection(b) =~= lit_open() + (ser_canvases(b) + seq![']'] + seq!['}']));
    lemma_cancel_prefix(
        lit_open(),
        ser_canvases(a) + seq![']'] + seq!['}'],
        ser_canvases(b) + seq![']'] + seq!['}'],
    );
    lemma_canvases_cancel(a, b, seq!['}'], seq!['}']);
}

/// The numeric value of a digit character, `0` for any other.
spec fn digit_val(c: char) -> int {
    if c == '0' {
        0
    } else if c == '1' {
        1
    } else if c == '2' {
        2
    } else if c == '3' {
        3
    } else if c == '4' {
        4
    } else if c == '5' {
        5
    } else if c == '6' {
        6
    } else if c == '7' {
        7
    } else if c == '8' {
        8
    } else if c == '9' {
        9
    } else {
        0
    }
}

/// The number written by a digit string, most significant digit first.
spec fn digits_val(s: Seq<char>) -> int
    decreases s.len(),
{
    if s.len() == 0 {
        0
    } else {
        digits_val(s.drop_last()) * 10 + digit_val(s.last())
    }
}

/// An id's decimal writing evaluates back to the id.
proof fn lemma_ser_u32_val(n: u32)
    ensures
        digits_val(ser_u32(n)) == n,
    decreases n,
{
    if n < 10 {
        assert(seq![digit_char(n)].drop_last() =~= Seq::<char>::empty());
        assert(digits_val(Seq::<char>::empty()) == 0);
        assert(digit_val(digit_char(n)) == n);
    } else {
        lemma_ser_u32_val(n / 10);
        assert(ser_u32(n).drop_last() =~= ser_u32(n / 10));
        assert(ser_u32(n).last() == digit_char(n % 10));
        assert(digit_val(digit_char(n % 10)) == n % 10);
    }
}

/// A digit string's value is never negative.
proof fn lemma_digits_val_nonneg(s: Seq<char>)
    ensures
        digits_val(s) >= 0,
    decreases s.len(),
{
    if s.len() > 0 {
        lemma_digits_val_nonneg(s.drop_last());
    }
}

/// Each digit prefix of a digit string is worth at most the whole string.
proof fn lemma_digits_val_prefix_bound(s: Seq<char>, k: int)
    requires
        0 <= k <= s.len(),
    ensures
        digits_val(s.subrange(0, k)) <= digits_val(s),
    decreases s.len() - k,
{
    if k == s.len() {
        assert(s.subrange(0, k) =~= s);
    } else {
        lemma_digits_val_prefix_bound(s, k + 1);
        let p1 = s.subrange(0, k + 1);
        assert(p1.drop_last() =~= s.subrange(0, k));
        assert(p1.last() == s[k]);
        lemma_digits_val_nonneg(s.subrange(0, k));
        assert(digits_val(s.subrange(0, k)) <= digits_val(p1));
    }
}

/// The decimal digit character for one digit value.
fn digit_exec(d: u32) -> (r: char)
    requires
        d < 10,
    ensures
        r == digit_char(d),
{
    if d == 0 {
        '0'
    } else if d == 1 {
        '1'
    } else if d == 2 {
        '2'
    } else if d == 3 {
        '3'
    } else if d == 4 {
        '4'
    } else if d == 5 {
        '5'
    } else if d == 6 {
        '6'
    } else if d == 7 {
        '7'
    } else if d == 8 {
        '8'
    } else {
        '9'
    }
}

/// Appends an id's decimal digits.
fn push_u32(out: &mut Vec<char>, n: u32)
    ensures
        final(out)@ == old(out)@ + ser_u32(n),
    decreases n,
{
    if n < 10 {
        out.push(digit_exec(n));
        proof {
            assert(out@ =~= old(out)@ + ser_u32(n));
        }
    } else {
        push_u32(out, n / 10);
        out.push(digit_exec(n % 10));
        proof {
            assert(out@ =~= old(out)@ + ser_u32(n));
        }
    }
}

/// Appends one string cell, quoted and escaped.
fn push_string(out: &mut Vec<char>, s: &String)
    ensures
        final(out)@ == old(out)@ + ser_string(s@),
{
    out.push('"');
    let ghost base = out@;
    let n = s.as_str().unicode_len();
    let mut j: usize = 0;
    while j < n
        invariant
            j <= n,
            n == s@.len(),
            out@ == base + esc_str(s@.subrange(0, j as int)),
        decreases n - j,
    {
        let c = s.as_str().get_char(j);
        if c == '"' {
            out.push('\\');
            out.push('"');
        } else if c == '\\' {
            out.push('\\');
            out.push('\\');
        } else {
            out.push(c);
        }
        proof {
            let s2 = s@.subrange(0, j + 1);
            assert(s2.drop_last() =~= s@.subrange(0, j as int));
            assert(s2.last() == s@[j as int]);
            assert(out@ =~= base + esc_str(s2));
        }
        j += 1;
    }
    out.push('"');
    proof {
        assert(s@.subrange(0, s@.len() as int) =~= s@);
        assert(out@ =~= old(out)@ + ser_string(s@));
    }
}

/// Appends one row of string cells.
fn push_row(out: &mut Vec<char>, row: &Vec<String>)
    ensures
        final(out)@ == old(out)@ + ser_row(row.deep_view()),
{
    out.push('[');
    let ghost base = out@;
    let ghost rv: Seq<Seq<char>> = row.deep_view();
    let mut j: usize = 0;
    while j < row.len()
        invariant
            j <= rv.len(),
            rv.len() == row.len(),
            rv == row.deep_view(),
            out@ == base + ser_cells(rv.subrange(0, j as int)),
        decreases rv.len() - j,
    {
        if j > 0 {
            out.push(',');
        }
        push_string(out, &row[j]);
        proof {
            let s2 = rv.subrange(0, j + 1);
            assert(s2.drop_last() =~= rv.subrange(0, j as int));
            assert(s2.last() == rv[j as int]);
            assert(rv[j as int] == row@[j as int]@);
            assert(out@ =~= base + ser_cells(s2));
        }
        j += 1;
    }
    out.push(']');
    proof {
        assert(rv.subrange(0, rv.len() as int) =~= rv);
        assert(out@ =~= old(out)@ + ser_row(rv));
    }
}

/// Appends one grid of rows.
fn push_grid(out: &mut Vec<char>, g: &Vec<Vec<String>>)
    ensures
        final(out)@ == old(out)@ + ser_grid(g.deep_view()),
{
    out.push('[');
    let ghost base = out@;
    let ghost gv: GridV = g.deep_view();
    let mut j: usize = 0;
    while j < g.len()
        invariant
            j <= gv.len(),
            gv.len() == g.len(),
            gv == g.deep_view(),
            out@ == base + ser_rows(gv.subrange(0, j as int)),
        decreases gv.len() - j,
    {
        if j > 0 {
            out.push(',');
        }
        push_row(out, &g[j]);
        proof {
            let s2 = gv.subrange(0, j + 1);
            assert(s2.drop_last() =~= gv.subrange(0, j as int));
            assert(s2.last() == gv[j as int]);
            assert(gv[j as int] =~= g@[j as int].deep_view());
            assert(out@ =~= base + ser_rows(s2));
        }
        j += 1;
    }
    out.push(']');
    proof {
        assert(gv.subrange(0, gv.len() as int) =~= gv);
        assert(out@ =~= old(out)@ + ser_grid(gv));
    }
}

/// Appends one canvas object.
fn push_canvas(out: &mut Vec<char>, canvas: &Canvas)
    ensures
        final(out)@ == old(out)@ + ser_canvas(canvas@),
{
    out.push('{');
    out.push('"');
    out.push('i');
    out.push('d');
    out.push('"');
    out.push(':');
    push_u32(out, canvas.id);
    out.push(',');
    out.push('"');
    out.push('c');
    out.push('o');
    out.push('n');
    out.push('t');
    out.push('e');
    out.push('n');
    out.push('t');
    out.push('"');
    out.push(':');
    push_grid(out, &canvas.content);
    out.push('}');
    proof {
        assert(out@ =~= old(out)@ + ser_canvas(canvas@));
    }
}

/// Builds the collection document as a character sequence.
fn push_collection(out: &mut Vec<char>, c: &Canvases)
    ensures
        final(out)@ == old(out)@ + ser_collection(c@),
{
    out.push('{');
    out.push('"');
    out.push('c');
    out.push('a');
    out.push('n');
    out.push('v');
    out.push('a');
    out.push('s');
    out.push('e');
    out.push('s');
    out.push('"');
    out.push(':');
    out.push('[');
    proof {
        assert(out@ =~= old(out)@ + lit_open());
    }
    let ghost base = out@;
    let ghost sv: Seq<CanvasV> = c@;
    let mut j: usize = 0;
    while j < c.canvases.len()
        invariant
            j <= sv.len(),
            sv.len() == c.canvases.len(),
            sv == c@,
            out@ == base + ser_canvases(sv.subrange(0, j as int)),
        decreases sv.len() - j,
    {
        if j > 0 {
            out.push(',');
        }
        push_canvas(out, &c.canvases[j]);
        proof {
            let s2 = sv.subrange(0, j + 1);
            assert(s2.drop_last() =~= sv.subrange(0, j as int));
            assert(s2.last() == sv[j as int]);
            assert(sv[j as int] == c.canvases@[j as int]@);
            assert(out@ =~= base + ser_canvases(s2));
        }
        j += 1;
    }
    out.push(']');
    out.push('}');
    proof {
        assert(sv.subrange(0, sv.len() as int) =~= sv);
        assert(out@ =~= old(out)@ + ser_collection(sv));
    }
}

/// Relies on `String::from_iter` over `std::vec::Vec::into_iter`: collecting
/// characters yields the string of exactly those characters.
#[verifier::external_body]
fn chars_to_string(v: Vec<char>) -> (s: String)
    ensures
        s@ == v@,
{
    v.into_iter().collect()
}

/// Serializes the whole collection into its durable document.
pub fn save_canvases(c: &Canvases) -> (doc: String)
    ensures
        doc@ == ser_collection(c@),
{
    let mut out: Vec<char> = Vec::new();
    push_collection(&mut out, c);
    chars_to_string(out)
}

/// Reads the characters of a borrowed string into a vector.
fn str_chars(s: &str) -> (v: Vec<char>)
    ensures
        v@ == s@,
{
    let n = s.unicode_len();
    let mut v: Vec<char> = Vec::new();
    let mut i: usize = 0;
    while i < n
        invariant
            i <= n,
            n == s@.len(),
            v@ == s@.subrange(0, i as int),
        decreases n - i,
    {
        v.push(s.get_char(i));
        proof {
            assert(s@.subrange(0, i + 1) =~= s@.subrange(0, i as int).push(s@[i as int]));
        }
        i += 1;
    }
    proof {
        assert(s@.subrange(0, s@.len() as int) =~= s@);
    }
    v
}

/// Whether two character vectors hold the same characters.
fn chars_eq(a: &Vec<char>, b: &Vec<char>) -> (r: bool)
    ensures
        r == (a@ == b@),
{
    if a.len() != b.len() {
        return false;
    }
    let mut i: usize = 0;
    while i < a.len()
        invariant
            i <= a@.len(),
            a@.len() == b@.len(),
            forall|j: int| 0 <= j < i ==> a@[j] == b@[j],
        decreases a@.len() - i,
    {
        if a[i] != b[i] {
            return false;
        }
        i += 1;
    }
    proof {
        assert(a@ =~= b@);
    }
    true
}

/// Whether a character is a decimal digit.
fn is_digit_exec(c: char) -> (r: bool)
    ensures
        r == is_digit(c),
{
    c == '0' || c == '1' || c == '2' || c == '3' || c == '4' || c == '5' || c == '6' || c == '7'
        || c == '8' || c == '9'
}

/// The digit value of a character, or `10` for a non-digit.
fn digit_of(c: char) -> (d: u32)
    ensures
        d <= 10,
        d < 10 ==> is_digit(c) && digit_val(c) == d,
        d == 10 ==> !is_digit(c),
{
    if c == '0' {
        0
    } else if c == '1' {
        1
    } else if c == '2' {
        2
    } else if c == '3' {
        3
    } else if c == '4' {
        4
    } else if c == '5' {
        5
    } else if c == '6' {
        6
    } else if c == '7' {
        7
    } else if c == '8' {
        8
    } else if c == '9' {
        9
    } else {
        10
    }
}

/// Consumes one expected character.
fn expect_char(v: &Vec<char>, i: usize, c: char) -> (r: Option<usize>)
    requires
        i <= v@.len(),
    ensures
        r matches Some(j) ==> i < v@.len() && j == i + 1 && v@[i as int] == c,
        r is None ==> i >= v@.len() || v@[i as int] != c,
{
    if i < v.len() && v[i] == c {
        Some(i + 1)
    } else {
        None
    }
}

/// Reading a known leading part: what stands at a position past it, and
/// which characters the part pins down.
proof fn lemma_skip_parts(v: Seq<char>, p: int, a: Seq<char>, b: Seq<char>)
    requires
        0 <= p <= v.len(),
        v.skip(p) == a + b,
    ensures
        p + a.len() <= v.len(),
        v.skip(p + a.len()) == b,
        forall|t: int| 0 <= t < a.len() ==> v[p + t] == a[t],
        a.len() > 0 ==> v[p] == a[0],
{
    assert(v.skip(p).len() == v.len() - p);
    if a.len() > 0 {
        assert(v.skip(p)[0] == v[p]);
        assert((a + b)[0] == a[0]);
    }
    assert forall|t: int| 0 <= t < a.len() implies v[p + t] == a[t] by {
        assert(v.skip(p)[t] == v[p + t]);
        assert((a + b)[t] == a[t]);
    }
    assert forall|t: int| 0 <= t < b.len() implies v.skip(p + a.len())[t] == b[t] by {
        assert(v.skip(p + a.len())[t] == v[p + a.len() + t]);
        assert(v.skip(p)[a.len() + t] == v[p + a.len() + t]);
        assert((a + b)[a.len() + t] == b[t]);
    }
    assert(v.skip(p + a.len()) =~= b);
}

/// Whether a number followed by a non-digit stands at a position.
spec fn num_at(v: Seq<char>, i: int, m: u32, rest: Seq<char>) -> bool {
    v.skip(i) == ser_u32(m) + rest && (rest.len() == 0 || !is_digit(rest[0]))
}

/// Reads a decimal number; it reads exactly any canonically written number
/// that stands at the position.
fn parse_u32(v: &Vec<char>, i: usize) -> (r: Option<(u32, usize)>)
    requires
        i <= v@.len(),
    ensures
        r matches Some(p) ==> i < p.1 <= v@.len(),
        forall|m: u32, rest: Seq<char>|
            num_at(v@, i as int, m, rest) ==> (r matches Some(p) && p.0 == m && p.1 == i + ser_u32(
                m,
            ).len() && v@.skip(p.1 as int) == rest),
{
    let n = v.len();
    let mut val: u32 = 0;
    let mut j: usize = i;
    while j < n && is_digit_exec(v[j])
        invariant
            i <= j <= n,
            n == v@.len(),
            forall|t: int| i <= t < j ==> is_digit(#[trigger] v@[t]),
            val as int == digits_val(v@.subrange(i as int, j as int)),
            forall|m: u32, rest: Seq<char>|
                num_at(v@, i as int, m, rest) ==> j <= i + ser_u32(m).len(),
        decreases n - j,
    {
        let d = digit_of(v[j]);
        proof {
            assert forall|m: u32, rest: Seq<char>| num_at(v@, i as int, m, rest) implies j < i
                + ser_u32(m).len() by {
                lemma_u32_digits(m);
                let ll = ser_u32(m).len() as int;
                if j == i + ll {
                    if rest.len() == 0 {
                        assert(v@.skip(i as int).len() == ll);
                        assert(false);
                    } else {
                        assert(v@[j as int] == v@.skip(i as int)[ll]);
                        assert(v@.skip(i as int)[ll] == rest[0]);
                        assert(false);
                    }
                }
            }
        }
        if val > 429496729 || (val == 429496729 && d > 5) {
            proof {
                assert forall|m: u32, rest: Seq<char>| num_at(v@, i as int, m, rest) implies
                false by {
                    lemma_u32_digits(m);
                    lemma_ser_u32_val(m);
                    let ll = ser_u32(m).len() as int;
                    assert(j < i + ll);
                    let p1 = v@.subrange(i as int, j + 1);
                    assert(p1.drop_last() =~= v@.subrange(i as int, j as int));
                    assert(p1.last() == v@[j as int]);
                    assert(digits_val(p1) == (val as int) * 10 + d);
                    assert(p1 =~= ser_u32(m).subrange(0, j + 1 - i)) by {
                        assert forall|t: int| 0 <= t < j + 1 - i implies p1[t] == ser_u32(m)[t] by {
                            assert(p1[t] == v@[i + t]);
                            assert(v@[i + t] == v@.skip(i as int)[t]);
                            assert(v@.skip(i as int)[t] == (ser_u32(m) + rest)[t]);
                        }
                    }
                    lemma_digits_val_prefix_bound(ser_u32(m), j + 1 - i);
                    assert((val as int) * 10 + d <= m);
                    assert(false);
                }
            }
            return None;
        }
        val = val * 10 + d;
        j += 1;
        proof {
            let p1 = v@.subrange(i as int, j as int);
            assert(p1.drop_last() =~= v@.subrange(i as int, j - 1));
            assert(p1.last() == v@[j - 1]);
            assert forall|m: u32, rest: Seq<char>| num_at(v@, i as int, m, rest) implies j <= i
                + ser_u32(m).len() by {
                lemma_u32_digits(m);
            }
        }
    }
    if j == i {
        proof {
            assert forall|m: u32, rest: Seq<char>| num_at(v@, i as int, m, rest) implies false by {
                lemma_u32_digits(m);
                assert(v@.skip(i as int).len() >= 1);
                assert(i < n);
                assert(v@[i as int] == v@.skip(i as int)[0]);
                assert(v@.skip(i as int)[0] == ser_u32(m)[0]);
                assert(is_digit(v@[i as int]));
            }
        }
        return None;
    }
    proof {
        assert forall|m: u32, rest: Seq<char>| num_at(v@, i as int, m, rest) implies val == m && j
            == i + ser_u32(m).len() && v@.skip(j as int) == rest by {
            lemma_skip_parts(v@, i as int, ser_u32(m), rest);
            lemma_u32_digits(m);
            lemma_ser_u32_val(m);
            let ll = ser_u32(m).len() as int;
            assert(v@.skip(i as int).len() == ll + rest.len());
            if j < i + ll {
                assert(v@[j as int] == v@.skip(i as int)[j - i]);
                assert(v@.skip(i as int)[j - i] == ser_u32(m)[j - i]);
                assert(is_digit(v@[j as int]));
                assert(j < n);
                assert(false);
            }
            assert(j == i + ll);
            let p1 = v@.subrange(i as int, j as int);
            assert(p1 =~= ser_u32(m)) by {
                assert forall|t: int| 0 <= t < ll implies p1[t] == ser_u32(m)[t] by {
                    assert(p1[t] == v@[i + t]);
                    assert(v@[i + t] == v@.skip(i as int)[t]);
                    assert(v@.skip(i as int)[t] == (ser_u32(m) + rest)[t]);
                }
            }
        }
    }
    Some((val, j))
}

/// Whether a serialized string stands at a position.
spec fn str_at(v: Seq<char>, i: int, s: Seq<char>, rest: Seq<char>) -> bool {
    v.skip(i) == ser_string(s) + rest
}

/// What remains at position `j` once the first `k` characters of a
/// serialized string standing at `i` have been read.
proof fn lemma_str_at_state(v: Seq<char>, i: int, s: Seq<char>, rest: Seq<char>, k: int, j: int)
    requires
        0 <= i <= v.len(),
        str_at(v, i, s, rest),
        0 <= k <= s.len(),
        j == i + 1 + esc_str(s.subrange(0, k)).len(),
    ensures
        j <= v.len(),
        v.skip(j) == esc_str(s.skip(k)) + seq!['"'] + rest,
{
    let p = s.subrange(0, k);
    let suf = s.skip(k);
    assert(s =~= p + suf);
    lemma_esc_str_add(p, suf);
    let lp = esc_str(p).len() as int;
    assert(v.skip(i) =~= seq!['"'] + (esc_str(p) + (esc_str(suf) + (seq!['"'] + rest))));
    assert(v.skip(i).len() == v.len() - i);
    assert(j <= v.len());
    assert forall|t: int| 0 <= t < v.len() - j implies v.skip(j)[t] == (esc_str(suf) + seq!['"']
        + rest)[t] by {
        assert(v.skip(j)[t] == v[j + t]);
        assert(v.skip(i)[j - i + t] == v[j + t]);
        assert((seq!['"'] + (esc_str(p) + (esc_str(suf) + (seq!['"'] + rest))))[1 + lp + t]
            == (esc_str(suf) + (seq!['"'] + rest))[t]);
        assert((esc_str(suf) + (seq!['"'] + rest)) =~= esc_str(suf) + seq!['"'] + rest);
    }
    assert(v.skip(j) =~= esc_str(suf) + seq!['"'] + rest);
}

/// Reads a quoted string, undoing backslash escapes; it reads exactly any
/// serialized string that stands at the position.
#[verifier::rlimit(50)]
fn parse_string(v: &Vec<char>, i: usize) -> (r: Option<(String, usize)>)
    requires
        i <= v@.len(),
    ensures
        r matches Some(p) ==> i < p.1 <= v@.len(),
        forall|s: Seq<char>, rest: Seq<char>|
            str_at(v@, i as int, s, rest) ==> (r matches Some(p) && p.0@ == s && p.1 == i
                + ser_string(s).len() && v@.skip(p.1 as int) == rest),
{
    let n = v.len();
    if i >= n || v[i] != '"' {
        proof {
            assert forall|s: Seq<char>, rest: Seq<char>| str_at(v@, i as int, s, rest) implies
            false by {
                assert(v@.skip(i as int).len() >= 2);
                assert(v@[i as int] == v@.skip(i as int)[0]);
                assert(v@.skip(i as int)[0] == (ser_string(s) + rest)[0]);
            }
        }
        return None;
    }
    let mut out: Vec<char> = Vec::new();
    let mut j: usize = i + 1;
    while j < n
        invariant
            i < j <= n,
            n == v@.len(),
            forall|s: Seq<char>, rest: Seq<char>|
                str_at(v@, i as int, s, rest) ==> out@.len() <= s.len() && out@ == s.subrange(
                    0,
                    out@.len() as int,
                ) && j == i + 1 + esc_str(s.subrange(0, out@.len() as int)).len(),
        decreases n - j,
    {
        let c = v[j];
        if c == '"' {
            proof {
                assert forall|s: Seq<char>, rest: Seq<char>| str_at(v@, i as int, s, rest) implies
                out@ == s && j + 1 == i + ser_string(s).len() && v@.skip(j + 1) == rest by {
                    lemma_skip_parts(v@, i as int, ser_string(s), rest);
                    let k = out@.len() as int;
                    lemma_str_at_state(v@, i as int, s, rest, k, j as int);
                    if k < s.len() {
                        lemma_esc_str_head(s.skip(k));
                        assert(v@.skip(j as int)[0] == esc_char(s.skip(k)[0])[0]);
                        assert(esc_char(s.skip(k)[0])[0] != '"');
                        assert(v@[j as int] == v@.skip(j as int)[0]);
                        assert(false);
                    }
                    assert(s.subrange(0, k) =~= s);
                    assert(esc_str(s.skip(k)) =~= Seq::<char>::empty());
                }
            }
            return Some((chars_to_string(out), j + 1));
        }
        proof {
            assert forall|s: Seq<char>, rest: Seq<char>| str_at(v@, i as int, s, rest) implies
            out@.len() < s.len() && v@[j as int] == esc_char(s[out@.len() as int])[0] by {
                let k = out@.len() as int;
                lemma_str_at_state(v@, i as int, s, rest, k, j as int);
                assert(v@[j as int] == v@.skip(j as int)[0]);
                if k == s.len() {
                    assert(esc_str(s.skip(k)) =~= Seq::<char>::empty());
                    assert(v@.skip(j as int)[0] == '"');
                    assert(false);
                }
                lemma_esc_str_head(s.skip(k));
                assert(s.skip(k)[0] == s[k]);
                assert(v@.skip(j as int)[0] == esc_char(s[k])[0]);
            }
        }
        if c == '\\' {
            if j + 1 >= n {
                proof {
                    assert forall|s: Seq<char>, rest: Seq<char>| str_at(
                        v@,
                        i as int,
                        s,
                        rest,
                    ) implies false by {
                        let k = out@.len() as int;
                        lemma_str_at_state(v@, i as int, s, rest, k, j as int);
                        assert(v@[j as int] == esc_char(s[k])[0]);
                        assert(s[k] == '"' || s[k] == '\\');
                        lemma_esc_str_head(s.skip(k));
                        assert(v@.skip(j as int).len() >= esc_char(s.skip(k)[0]).len() + 1);
                    }
                }
                return None;
            }
            let x = v[j + 1];
            out.push(x);
            j += 2;
            proof {
                assert forall|s: Seq<char>, rest: Seq<char>| str_at(v@, i as int, s, rest) implies
                out@.len() <= s.len() && out@ == s.subrange(0, out@.len() as int) && j == i + 1
                    + esc_str(s.subrange(0, out@.len() as int)).len() by {
                    let k = out@.len() - 1;
                    lemma_str_at_state(v@, i as int, s, rest, k, j - 2);
                    assert(v@[j - 2] == esc_char(s[k])[0]);
                    assert(s[k] == '"' || s[k] == '\\');
                    lemma_esc_str_head(s.skip(k));
                    assert(v@.skip(j - 2)[1] == esc_char(s.skip(k)[0])[1]);
                    assert(x == v@[j - 1]);
                    assert(v@[j - 1] == v@.skip(j - 2)[1]);
                    assert(x == s[k]);
                    assert(out@ =~= s.subrange(0, k + 1));
                    let p1 = s.subrange(0, k + 1);
                    assert(p1.drop_last() =~= s.subrange(0, k));
                    assert(p1.last() == s[k]);
                    assert(esc_str(p1) == esc_str(s.subrange(0, k)) + esc_char(s[k]));
                    assert(esc_char(s[k]).len() == 2);
                }
            }
        } else {
            out.push(c);
            j += 1;
            proof {
                assert forall|s: Seq<char>, rest: Seq<char>| str_at(v@, i as int, s, rest) implies
                out@.len() <= s.len() && out@ == s.subrange(0, out@.len() as int) && j == i + 1
                    + esc_str(s.subrange(0, out@.len() as int)).len() by {
                    let k = out@.len() - 1;
                    lemma_str_at_state(v@, i as int, s, rest, k, j - 1);
                    assert(v@[j - 1] == esc_char(s[k])[0]);
                    assert(s[k] == c) by {
                        if s[k] == '"' || s[k] == '\\' {
                            assert(esc_char(s[k])[0] == '\\');
                            assert(c == '\\');
                            assert(false);
                        }
                    }
                    assert(out@ =~= s.subrange(0, k + 1));
                    let p1 = s.subrange(0, k + 1);
                    assert(p1.drop_last() =~= s.subrange(0, k));
                    assert(p1.last() == s[k]);
                    assert(esc_str(p1) == esc_str(s.subrange(0, k)) + esc_char(s[k]));
                    assert(esc_char(s[k]).len() == 1);
                }
            }
        }
    }
    proof {
        assert forall|s: Seq<char>, rest: Seq<char>| str_at(v@, i as int, s, rest) implies false by {
            let k = out@.len() as int;
            lemma_str_at_state(v@, i as int, s, rest, k, j as int);
            assert(v@.skip(j as int).len() == 0);
            assert((esc_str(s.skip(k)) + seq!['"'] + rest).len() >= 1);
        }
    }
    None
}

/// Whether a serialized row stands at a position.
spec fn row_at(v: Seq<char>, i: int, x: Seq<Seq<char>>, rest: Seq<char>) -> bool {
    v.skip(i) == ser_row(x) + rest
}

/// What stands at the start of the next cell: the cell, then a comma or the
/// closing bracket.
proof fn lemma_cells_state(v: Seq<char>, j: int, x: Seq<Seq<char>>, k: int, rest: Seq<char>)
    requires
        0 <= j <= v.len(),
        0 <= k < x.len(),
        v.skip(j) == ser_cells(x.skip(k)) + seq![']'] + rest,
    ensures
        str_at(
            v,
            j,
            x[k],
            if k == x.len() - 1 {
                seq![']'] + rest
            } else {
                seq![','] + (ser_cells(x.skip(k + 1)) + seq![']'] + rest)
            },
        ),
{
    let suf = x.skip(k);
    lemma_cells_head(suf);
    assert(suf[0] == x[k]);
    if k == x.len() - 1 {
        assert(ser_cells(suf) =~= ser_string(x[k]) + Seq::<char>::empty());
        assert(v.skip(j) =~= ser_string(x[k]) + (seq![']'] + rest));
    } else {
        assert(suf.skip(1) =~= x.skip(k + 1));
        assert(v.skip(j) =~= ser_string(x[k]) + (seq![','] + (ser_cells(x.skip(k + 1))
            + seq![']'] + rest)));
    }
}

/// Reads one bracketed row of string cells; it reads exactly any serialized
/// row that stands at the position.
#[verifier::rlimit(50)]
fn parse_row(v: &Vec<char>, i: usize) -> (r: Option<(Vec<String>, usize)>)
    requires
        i <= v@.len(),
    ensures
        r matches Some(p) ==> i < p.1 <= v@.len(),
        forall|x: Seq<Seq<char>>, rest: Seq<char>|
            row_at(v@, i as int, x, rest) ==> (r matches Some(p) && p.0.deep_view() == x
                && v@.skip(p.1 as int) == rest),
{
    let n = v.len();
    if i >= n || v[i] != '[' {
        proof {
            assert forall|x: Seq<Seq<char>>, rest: Seq<char>| row_at(v@, i as int, x, rest) implies
            false by {
                lemma_skip_parts(v@, i as int, ser_row(x), rest);
                assert(v@[i as int] == ser_row(x)[0]);
            }
        }
        return None;
    }
    let mut row: Vec<String> = Vec::new();
    let mut j: usize = i + 1;
    proof {
        assert forall|x: Seq<Seq<char>>, rest: Seq<char>| row_at(v@, i as int, x, rest) implies v@.skip(
            j as int,
        ) == ser_cells(x) + seq![']'] + rest by {
            assert(v@.skip(i as int) =~= seq!['['] + (ser_cells(x) + seq![']'] + rest));
            lemma_skip_parts(v@, i as int, seq!['['], ser_cells(x) + seq![']'] + rest);
        }
    }
    if j < n && v[j] == ']' {
        proof {
            assert forall|x: Seq<Seq<char>>, rest: Seq<char>| row_at(v@, i as int, x, rest) implies
            x.len() == 0 && v@.skip(j + 1) == rest by {
                if x.len() > 0 {
                    lemma_cells_head(x);
                    assert(x.skip(0) =~= x);
                    lemma_cells_state(v@, j as int, x, 0, rest);
                    lemma_skip_parts(
                        v@,
                        j as int,
                        ser_string(x[0]),
                        if x.len() == 1 {
                            seq![']'] + rest
                        } else {
                            seq![','] + (ser_cells(x.skip(1)) + seq![']'] + rest)
                        },
                    );
                    assert(v@[j as int] == ser_string(x[0])[0]);
                    assert(false);
                }
                assert(ser_cells(x) =~= Seq::<char>::empty());
                assert(v@.skip(j as int) =~= seq![']'] + rest);
                lemma_skip_parts(v@, j as int, seq![']'], rest);
                assert(row.deep_view() =~= x);
            }
        }
        return Some((row, j + 1));
    }
    proof {
        assert forall|x: Seq<Seq<char>>, rest: Seq<char>| row_at(v@, i as int, x, rest) implies
        x.len() > 0 && row.deep_view() == x.subrange(0, 0) && v@.skip(j as int) == ser_cells(
            x.skip(0),
        ) + seq![']'] + rest by {
            if x.len() == 0 {
                assert(ser_cells(x) =~= Seq::<char>::empty());
                assert(v@.skip(j as int) =~= seq![']'] + rest);
                lemma_skip_parts(v@, j as int, seq![']'], rest);
                assert(v@[j as int] == ']');
                assert(j < n);
                assert(false);
            }
            assert(x.skip(0) =~= x);
            assert(row.deep_view() =~= x.subrange(0, 0));
        }
    }
    while j < n
        invariant
            i < j <= n,
            n == v@.len(),
            forall|x: Seq<Seq<char>>, rest: Seq<char>|
                row_at(v@, i as int, x, rest) ==> row@.len() < x.len() && row.deep_view()
                    == x.subrange(0, row@.len() as int) && v@.skip(j as int) == ser_cells(
                    x.skip(row@.len() as int),
                ) + seq![']'] + rest,
        decreases n - j,
    {
        let ghost prev = row.deep_view();
        match parse_string(v, j) {
            None => {
                proof {
                    assert forall|x: Seq<Seq<char>>, rest: Seq<char>| row_at(
                        v@,
                        i as int,
                        x,
                        rest,
                    ) implies false by {
                        lemma_cells_state(v@, j as int, x, row@.len() as int, rest);
                    }
                }
                return None;
            },
            Some((s, j2)) => {
                row.push(s);
                proof {
                    let k = row@.len() - 1;
                    assert forall|x: Seq<Seq<char>>, rest: Seq<char>| row_at(
                        v@,
                        i as int,
                        x,
                        rest,
                    ) implies k < x.len() && s@ == x[k] && row.deep_view() == x.subrange(0, k + 1)
                        && v@.skip(j2 as int) == (if k == x.len() - 1 {
                        seq![']'] + rest
                    } else {
                        seq![','] + (ser_cells(x.skip(k + 1)) + seq![']'] + rest)
                    }) by {
                        lemma_cells_state(v@, j as int, x, k, rest);
                        assert(row.deep_view() =~= x.subrange(0, k + 1));
                    }
                }
                if j2 < n && v[j2] == ',' {
                    proof {
                        let k = row@.len() - 1;
                        assert forall|x: Seq<Seq<char>>, rest: Seq<char>| row_at(
                            v@,
                            i as int,
                            x,
                            rest,
                        ) implies k + 1 < x.len() && v@.skip(j2 + 1) == ser_cells(x.skip(k + 1))
                            + seq![']'] + rest by {
                            if k == x.len() - 1 {
                                lemma_skip_parts(v@, j2 as int, seq![']'], rest);
                                assert(v@[j2 as int] == ']');
                                assert(false);
                            }
                            assert(v@.skip(j2 as int) =~= seq![','] + (ser_cells(x.skip(k + 1))
                                + seq![']'] + rest));
                            lemma_skip_parts(
                                v@,
                                j2 as int,
                                seq![','],
                                ser_cells(x.skip(k + 1)) + seq![']'] + rest,
                            );
                        }
                    }
                    j = j2 + 1;
                } else if j2 < n && v[j2] == ']' {
                    proof {
                        let k = row@.len() - 1;
                        assert forall|x: Seq<Seq<char>>, rest: Seq<char>| row_at(
                            v@,
                            i as int,
                            x,
                            rest,
                        ) implies row.deep_view() == x && v@.skip(j2 + 1) == rest by {
                            if k < x.len() - 1 {
                                assert(v@.skip(j2 as int) =~= seq![','] + (ser_cells(x.skip(k + 1))
                                    + seq![']'] + rest));
                                lemma_skip_parts(
                                    v@,
                                    j2 as int,
                                    seq![','],
                                    ser_cells(x.skip(k + 1)) + seq![']'] + rest,
                                );
                                assert(v@[j2 as int] == ',');
                                assert(false);
                            }
                            assert(x.subrange(0, k + 1) =~= x);
                            lemma_skip_parts(v@, j2 as int, seq![']'], rest);
                        }
                    }
                    return Some((row, j2 + 1));
                } else {
                    proof {
                        let k = row@.len() - 1;
                        assert forall|x: Seq<Seq<char>>, rest: Seq<char>| row_at(
                            v@,
                            i as int,
                            x,
                            rest,
                        ) implies false by {
                            if k == x.len() - 1 {
                                lemma_skip_parts(v@, j2 as int, seq![']'], rest);
                                assert(v@[j2 as int] == ']');
                                assert(j2 < n);
                            } else {
                                assert(v@.skip(j2 as int) =~= seq![','] + (ser_cells(x.skip(k + 1))
                                    + seq![']'] + rest));
                                lemma_skip_parts(
                                    v@,
                                    j2 as int,
                                    seq![','],
                                    ser_cells(x.skip(k + 1)) + seq![']'] + rest,
                                );
                                assert(v@[j2 as int] == ',');
                                assert(j2 < n);
                            }
                        }
                    }
                    return None;
                }
            },
        }
    }
    proof {
        assert forall|x: Seq<Seq<char>>, rest: Seq<char>| row_at(v@, i as int, x, rest) implies
        false by {
            assert(v@.skip(j as int).len() == 0);
        }
    }
    None
}

/// Whether a serialized grid stands at a position.
spec fn grid_at(v: Seq<char>, i: int, x: GridV, rest: Seq<char>) -> bool {
    v.skip(i) == ser_grid(x) + rest
}

/// What stands at the start of the next row: the row, then a comma or the
/// closing bracket.
proof fn lemma_rows_state(v: Seq<char>, j: int, x: GridV, k: int, rest: Seq<char>)
    requires
        0 <= j <= v.len(),
        0 <= k < x.len(),
        v.skip(j) == ser_rows(x.skip(k)) + seq![']'] + rest,
    ensures
        row_at(
            v,
            j,
            x[k],
            if k == x.len() - 1 {
                seq![']'] + rest
            } else {
                seq![','] + (ser_rows(x.skip(k + 1)) + seq![']'] + rest)
            },
        ),
{
    let suf = x.skip(k);
    lemma_rows_head(suf);
    assert(suf[0] == x[k]);
    if k == x.len() - 1 {
        assert(ser_rows(suf) =~= ser_row(x[k]) + Seq::<char>::empty());
        assert(v.skip(j) =~= ser_row(x[k]) + (seq![']'] + rest));
    } else {
        assert(suf.skip(1) =~= x.skip(k + 1));
        assert(v.skip(j) =~= ser_row(x[k]) + (seq![','] + (ser_rows(x.skip(k + 1)) + seq![']']
            + rest)));
    }
}

/// Reads one bracketed grid of rows; it reads exactly any serialized grid
/// that stands at the position.
#[verifier::rlimit(50)]
fn parse_grid(v: &Vec<char>, i: usize) -> (r: Option<(Vec<Vec<String>>, usize)>)
    requires
        i <= v@.len(),
    ensures
        r matches Some(p) ==> i < p.1 <= v@.len(),
        forall|x: GridV, rest: Seq<char>|
            grid_at(v@, i as int, x, rest) ==> (r matches Some(p) && p.0.deep_view() == x
                && v@.skip(p.1 as int) == rest),
{
    let n = v.len();
    if i >= n || v[i] != '[' {
        proof {
            assert forall|x: GridV, rest: Seq<char>| grid_at(v@, i as int, x, rest) implies
            false by {
                lemma_skip_parts(v@, i as int, ser_grid(x), rest);
                assert(v@[i as int] == ser_grid(x)[0]);
            }
        }
        return None;
    }
    let mut g: Vec<Vec<String>> = Vec::new();
    let mut j: usize = i + 1;
    proof {
        assert forall|x: GridV, rest: Seq<char>| grid_at(v@, i as int, x, rest) implies v@.skip(
            j as int,
        ) == ser_rows(x) + seq![']'] + rest by {
            assert(v@.skip(i as int) =~= seq!['['] + (ser_rows(x) + seq![']'] + rest));
            lemma_skip_parts(v@, i as int, seq!['['], ser_rows(x) + seq![']'] + rest);
        }
    }
    if j < n && v[j] == ']' {
        proof {
            assert forall|x: GridV, rest: Seq<char>| grid_at(v@, i as int, x, rest) implies g.deep_view()
                == x && v@.skip(j + 1) == rest by {
                if x.len() > 0 {
                    assert(x.skip(0) =~= x);
                    lemma_rows_state(v@, j as int, x, 0, rest);
                    lemma_skip_parts(
                        v@,
                        j as int,
                        ser_row(x[0]),
                        if x.len() == 1 {
                            seq![']'] + rest
                        } else {
                            seq![','] + (ser_rows(x.skip(1)) + seq![']'] + rest)
                        },
                    );
                    assert(v@[j as int] == ser_row(x[0])[0]);
                    assert(false);
                }
                assert(ser_rows(x) =~= Seq::<char>::empty());
                assert(v@.skip(j as int) =~= seq![']'] + rest);
                lemma_skip_parts(v@, j as int, seq![']'], rest);
                assert(g.deep_view() =~= x);
            }
        }
        return Some((g, j + 1));
    }
    proof {
        assert forall|x: GridV, rest: Seq<char>| grid_at(v@, i as int, x, rest) implies x.len() > 0
            && g.deep_view() == x.subrange(0, 0) && v@.skip(j as int) == ser_rows(x.skip(0))
            + seq![']'] + rest by {
            if x.len() == 0 {
                assert(ser_rows(x) =~= Seq::<char>::empty());
                assert(v@.skip(j as int) =~= seq![']'] + rest);
                lemma_skip_parts(v@, j as int, seq![']'], rest);
                assert(v@[j as int] == ']');
                assert(j < n);
                assert(false);
            }
            assert(x.skip(0) =~= x);
            assert(g.deep_view() =~= x.subrange(0, 0));
        }
    }
    while j < n
        invariant
            i < j <= n,
            n == v@.len(),
            forall|x: GridV, rest: Seq<char>|
                grid_at(v@, i as int, x, rest) ==> g@.len() < x.len() && g.deep_view()
                    == x.subrange(0, g@.len() as int) && v@.skip(j as int) == ser_rows(
                    x.skip(g@.len() as int),
                ) + seq![']'] + rest,
        decreases n - j,
    {
        match parse_row(v, j) {
            None => {
                proof {
                    assert forall|x: GridV, rest: Seq<char>| grid_at(
                        v@,
                        i as int,
                        x,
                        rest,
                    ) implies false by {
                        lemma_rows_state(v@, j as int, x, g@.len() as int, rest);
                    }
                }
                return None;
            },
            Some((row, j2)) => {
                g.push(row);
                proof {
                    let k = g@.len() - 1;
                    assert forall|x: GridV, rest: Seq<char>| grid_at(
                        v@,
                        i as int,
                        x,
                        rest,
                    ) implies k < x.len() && row.deep_view() == x[k] && g.deep_view() == x.subrange(
                        0,
                        k + 1,
                    ) && v@.skip(j2 as int) == (if k == x.len() - 1 {
                        seq![']'] + rest
                    } else {
                        seq![','] + (ser_rows(x.skip(k + 1)) + seq![']'] + rest)
                    }) by {
                        lemma_rows_state(v@, j as int, x, k, rest);
                        assert(g.deep_view() =~= x.subrange(0, k + 1));
                    }
                }
                if j2 < n && v[j2] == ',' {
                    proof {
                        let k = g@.len() - 1;
                        assert forall|x: GridV, rest: Seq<char>| grid_at(
                            v@,
                            i as int,
                            x,
                            rest,
                        ) implies k + 1 < x.len() && v@.skip(j2 + 1) == ser_rows(x.skip(k + 1))
                            + seq![']'] + rest by {
                            if k == x.len() - 1 {
                                lemma_skip_parts(v@, j2 as int, seq![']'], rest);
                                assert(v@[j2 as int] == ']');
                                assert(false);
                            }
                            assert(v@.skip(j2 as int) =~= seq![','] + (ser_rows(x.skip(k + 1))
                                + seq![']'] + rest));
                            lemma_skip_parts(
                                v@,
                                j2 as int,
                                seq![','],
                                ser_rows(x.skip(k + 1)) + seq![']'] + rest,
                            );
                        }
                    }
                    j = j2 + 1;
                } else if j2 < n && v[j2] == ']' {
                    proof {
                        let k = g@.len() - 1;
                        assert forall|x: GridV, rest: Seq<char>| grid_at(
                            v@,
                            i as int,
                            x,
                            rest,
                        ) implies g.deep_view() == x && v@.skip(j2 + 1) == rest by {
                            if k < x.len() - 1 {
                                assert(v@.skip(j2 as int) =~= seq![','] + (ser_rows(x.skip(k + 1))
                                    + seq![']'] + rest));
                                lemma_skip_parts(
                                    v@,
                                    j2 as int,
                                    seq![','],
                                    ser_rows(x.skip(k + 1)) + seq![']'] + rest,
                                );
                                assert(v@[j2 as int] == ',');
                                assert(false);
                            }
                            assert(x.subrange(0, k + 1) =~= x);
                            lemma_skip_parts(v@, j2 as int, seq![']'], rest);
                        }
                    }
                    return Some((g, j2 + 1));
                } else {
                    proof {
                        let k = g@.len() - 1;
                        assert forall|x: GridV, rest: Seq<char>| grid_at(
                            v@,
                            i as int,
                            x,
                            rest,
                        ) implies false by {
                            if k == x.len() - 1 {
                                lemma_skip_parts(v@, j2 as int, seq![']'], rest);
                                assert(v@[j2 as int] == ']');
                                assert(j2 < n);
                            } else {
                                assert(v@.skip(j2 as int) =~= seq![','] + (ser_rows(x.skip(k + 1))
                                    + seq![']'] + rest));
                                lemma_skip_parts(
                                    v@,
                                    j2 as int,
                                    seq![','],
                                    ser_rows(x.skip(k + 1)) + seq![']'] + rest,
                                );
                                assert(v@[j2 as int] == ',');
                                assert(j2 < n);
                            }
                        }
                    }
                    return None;
                }
            },
        }
    }
    proof {
        assert forall|x: GridV, rest: Seq<char>| grid_at(v@, i as int, x, rest) implies false by {
            assert(v@.skip(j as int).len() == 0);
        }
    }
    None
}

/// Whether a serialized canvas stands at a position.
spec fn canvas_at(v: Seq<char>, i: int, cv: CanvasV, rest: Seq<char>) -> bool {
    v.skip(i) == ser_canvas(cv) + rest
}

/// Reads one canvas object; it reads exactly any serialized canvas that
/// stands at the position.
#[verifier::rlimit(80)]
fn parse_canvas(v: &Vec<char>, i: usize) -> (r: Option<(Canvas, usize)>)
    requires
        i <= v@.len(),
    ensures
        r matches Some(p) ==> i < p.1 <= v@.len(),
        forall|cv: CanvasV, rest: Seq<char>|
            canvas_at(v@, i as int, cv, rest) ==> (r matches Some(p) && p.0@ == cv && v@.skip(
                p.1 as int,
            ) == rest),
{
    proof {
        assert forall|cv: CanvasV, rest: Seq<char>| canvas_at(v@, i as int, cv, rest) implies i + 6
            <= v@.len() && v@[i as int] == '{' && v@[i + 1] == '"' && v@[i + 2] == 'i' && v@[i + 3]
            == 'd' && v@[i + 4] == '"' && v@[i + 5] == ':' && num_at(
            v@,
            i + 6,
            cv.id,
            lit_content() + (ser_grid(cv.content) + (seq!['}'] + rest)),
        ) by {
            let pre = seq!['{'] + lit_id();
            let after = lit_content() + (ser_grid(cv.content) + (seq!['}'] + rest));
            assert(v@.skip(i as int) =~= pre + (ser_u32(cv.id) + after));
            lemma_skip_parts(v@, i as int, pre, ser_u32(cv.id) + after);
            assert(after[0] == ',');
            assert(v@[i + 0] == pre[0]);
            assert(v@[i + 1] == pre[1]);
            assert(v@[i + 2] == pre[2]);
            assert(v@[i + 3] == pre[3]);
            assert(v@[i + 4] == pre[4]);
            assert(v@[i + 5] == pre[5]);
        }
    }
    let j = expect_char(v, i, '{')?;
    let j = expect_char(v, j, '"')?;
    let j = expect_char(v, j, 'i')?;
    let j = expect_char(v, j, 'd')?;
    let j = expect_char(v, j, '"')?;
    let j = expect_char(v, j, ':')?;
    let (id, j) = parse_u32(v, j)?;
    proof {
        assert forall|cv: CanvasV, rest: Seq<char>| canvas_at(v@, i as int, cv, rest) implies id
            == cv.id && j + 11 <= v@.len() && v@[j as int] == ',' && v@[j + 1] == '"' && v@[j + 2]
            == 'c' && v@[j + 3] == 'o' && v@[j + 4] == 'n' && v@[j + 5] == 't' && v@[j + 6] == 'e'
            && v@[j + 7] == 'n' && v@[j + 8] == 't' && v@[j + 9] == '"' && v@[j + 10] == ':'
            && grid_at(v@, j + 11, cv.content, seq!['}'] + rest) by {
            lemma_skip_parts(v@, j as int, lit_content(), ser_grid(cv.content) + (seq!['}'] + rest));
            assert(v@[j + 0] == lit_content()[0]);
            assert(v@[j + 1] == lit_content()[1]);
            assert(v@[j + 2] == lit_content()[2]);
            assert(v@[j + 3] == lit_content()[3]);
            assert(v@[j + 4] == lit_content()[4]);
            assert(v@[j + 5] == lit_content()[5]);
            assert(v@[j + 6] == lit_content()[6]);
            assert(v@[j + 7] == lit_content()[7]);
            assert(v@[j + 8] == lit_content()[8]);
            assert(v@[j + 9] == lit_content()[9]);
            assert(v@[j + 10] == lit_content()[10]);
        }
    }
    let j = expect_char(v, j, ',')?;
    let j = expect_char(v, j, '"')?;
    let j = expect_char(v, j, 'c')?;
    let j = expect_char(v, j, 'o')?;
    let j = expect_char(v, j, 'n')?;
    let j = expect_char(v, j, 't')?;
    let j = expect_char(v, j, 'e')?;
    let j = expect_char(v, j, 'n')?;
    let j = expect_char(v, j, 't')?;
    let j = expect_char(v, j, '"')?;
    let j = expect_char(v, j, ':')?;
    let (content, j) = parse_grid(v, j)?;
    proof {
        assert forall|cv: CanvasV, rest: Seq<char>| canvas_at(v@, i as int, cv, rest) implies
        content.deep_view() == cv.content && v@[j as int] == '}' && v@.skip(j + 1) == rest by {
            lemma_skip_parts(v@, j as int, seq!['}'], rest);
        }
    }
    let j = expect_char(v, j, '}')?;
    let canvas = Canvas::new(id, content);
    proof {
        assert forall|cv: CanvasV, rest: Seq<char>| canvas_at(v@, i as int, cv, rest) implies
        canvas@ == cv by {
            assert(canvas@ =~~= cv);
        }
    }
    Some((canvas, j))
}

/// What stands at the start of the next canvas: the canvas, then a comma or
/// the closing bracket.
proof fn lemma_canvases_state(v: Seq<char>, j: int, w: Seq<CanvasV>, k: int, rest: Seq<char>)
    requires
        0 <= j <= v.len(),
        0 <= k < w.len(),
        v.skip(j) == ser_canvases(w.skip(k)) + seq![']'] + rest,
    ensures
        canvas_at(
            v,
            j,
            w[k],
            if k == w.len() - 1 {
                seq![']'] + rest
            } else {
                seq![','] + (ser_canvases(w.skip(k + 1)) + seq![']'] + rest)
            },
        ),
{
    let suf = w.skip(k);
    lemma_canvases_head(suf);
    assert(suf[0] == w[k]);
    if k == w.len() - 1 {
        assert(ser_canvases(suf) =~= ser_canvas(w[k]) + Seq::<char>::empty());
        assert(v.skip(j) =~= ser_canvas(w[k]) + (seq![']'] + rest));
    } else {
        assert(suf.skip(1) =~= w.skip(k + 1));
        assert(v.skip(j) =~= ser_canvas(w[k]) + (seq![','] + (ser_canvases(w.skip(k + 1))
            + seq![']'] + rest)));
    }
}

/// The first character of a serialized canvas.
proof fn lemma_ser_canvas_first(cv: CanvasV)
    ensures
        ser_canvas(cv).len() > 0,
        ser_canvas(cv)[0] == '{',
{
    assert(ser_canvas(cv) =~= seq!['{'] + (lit_id() + (ser_u32(cv.id) + (lit_content() + (ser_grid(
        cv.content,
    ) + seq!['}'])))));
}

/// Reads a whole collection document; the entire input must be consumed.
/// It reads exactly any whole collection document.
#[verifier::rlimit(80)]
fn parse_collection(v: &Vec<char>) -> (r: Option<Canvases>)
    ensures
        forall|w: Seq<CanvasV>|
            v@ == ser_collection(w) ==> (r matches Some(c) && c@ == w),
{
    let n = v.len();
    proof {
        assert forall|w: Seq<CanvasV>| v@ == ser_collection(w) implies 13 <= v@.len() && v@[0]
            == '{' && v@[1] == '"' && v@[2] == 'c' && v@[3] == 'a' && v@[4] == 'n' && v@[5] == 'v'
            && v@[6] == 'a' && v@[7] == 's' && v@[8] == 'e' && v@[9] == 's' && v@[10] == '"'
            && v@[11] == ':' && v@[12] == '[' && v@.skip(13) == ser_canvases(w) + seq![']']
            + seq!['}'] by {
            assert(v@.skip(0) =~= v@);
            assert(v@.skip(0) =~= lit_open() + (ser_canvases(w) + seq![']'] + seq!['}']));
            lemma_skip_parts(v@, 0, lit_open(), ser_canvases(w) + seq![']'] + seq!['}']);
            assert(v@[0] == lit_open()[0]);
            assert(v@[0int + 1] == lit_open()[1]);
            assert(v@[0int + 2] == lit_open()[2]);
            assert(v@[0int + 3] == lit_open()[3]);
            assert(v@[0int + 4] == lit_open()[4]);
            assert(v@[0int + 5] == lit_open()[5]);
            assert(v@[0int + 6] == lit_open()[6]);
            assert(v@[0int + 7] == lit_open()[7]);
            assert(v@[0int + 8] == lit_open()[8]);
            assert(v@[0int + 9] == lit_open()[9]);
            assert(v@[0int + 10] == lit_open()[10]);
            assert(v@[0int + 11] == lit_open()[11]);
            assert(v@[0int + 12] == lit_open()[12]);
        }
    }
    let j = expect_char(v, 0, '{')?;
    let j = expect_char(v, j, '"')?;
    let j = expect_char(v, j, 'c')?;
    let j = expect_char(v, j, 'a')?;
    let j = expect_char(v, j, 'n')?;
    let j = expect_char(v, j, 'v')?;
    let j = expect_char(v, j, 'a')?;
    let j = expect_char(v, j, 's')?;
    let j = expect_char(v, j, 'e')?;
    let j = expect_char(v, j, 's')?;
    let j = expect_char(v, j, '"')?;
    let j = expect_char(v, j, ':')?;
    let mut j = expect_char(v, j, '[')?;
    let mut canvases: Vec<Canvas> = Vec::new();
    if j < n && v[j] == ']' {
        proof {
            assert forall|w: Seq<CanvasV>| v@ == ser_collection(w) implies w.len() == 0 && j + 2
                == n && v@[j + 1] == '}' by {
                if w.len() > 0 {
                    assert(w.skip(0) =~= w);
                    lemma_canvases_state(v@, j as int, w, 0, seq!['}']);
                    lemma_ser_canvas_first(w[0]);
                    lemma_skip_parts(
                        v@,
                        j as int,
                        ser_canvas(w[0]),
                        if w.len() == 1 {
                            seq![']'] + seq!['}']
                        } else {
                            seq![','] + (ser_canvases(w.skip(1)) + seq![']'] + seq!['}'])
                        },
                    );
                    assert(false);
                }
                assert(ser_canvases(w) =~= Seq::<char>::empty());
                assert(v@.skip(j as int) =~= seq![']'] + (seq!['}'] + Seq::<char>::empty()));
                lemma_skip_parts(v@, j as int, seq![']'], seq!['}'] + Seq::<char>::empty());
                lemma_skip_parts(v@, j + 1, seq!['}'], Seq::<char>::empty());
                assert(v@.skip(j + 2).len() == 0);
            }
        }
        let j2 = expect_char(v, j + 1, '}')?;
        if j2 == n {
            let c = Canvases::new(canvases);
            proof {
                assert forall|w: Seq<CanvasV>| v@ == ser_collection(w) implies c@ == w by {
                    assert(c@ =~= w);
                }
            }
            return Some(c);
        }
        return None;
    }
    proof {
        assert forall|w: Seq<CanvasV>| v@ == ser_collection(w) implies w.len() > 0
            && canvases.deep_view() == w.subrange(0, 0) && v@.skip(j as int) == ser_canvases(
            w.skip(0),
        ) + seq![']'] + seq!['}'] by {
            if w.len() == 0 {
                assert(ser_canvases(w) =~= Seq::<char>::empty());
                assert(v@.skip(j as int) =~= seq![']'] + seq!['}']);
                lemma_skip_parts(v@, j as int, seq![']'], seq!['}']);
                assert(v@[j as int] == ']');
                assert(j < n);
                assert(false);
            }
            assert(w.skip(0) =~= w);
            assert(canvases.deep_view() =~= w.subrange(0, 0));
            assert(v@.skip(j as int) =~= ser_canvases(w) + seq![']'] + seq!['}']);
        }
    }
    while j < n
        invariant
            j <= n,
            n == v@.len(),
            forall|w: Seq<CanvasV>|
                v@ == ser_collection(w) ==> canvases@.len() < w.len() && canvases.deep_view()
                    == w.subrange(0, canvases@.len() as int) && v@.skip(j as int) == ser_canvases(
                    w.skip(canvases@.len() as int),
                ) + seq![']'] + seq!['}'],
        decreases n - j,
    {
        match parse_canvas(v, j) {
            None => {
                proof {
                    assert forall|w: Seq<CanvasV>| v@ == ser_collection(w) implies false by {
                        lemma_canvases_state(v@, j as int, w, canvases@.len() as int, seq!['}']);
                    }
                }
                return None;
            },
            Some((canvas, j2)) => {
                canvases.push(canvas);
                proof {
                    let k = canvases@.len() - 1;
                    assert forall|w: Seq<CanvasV>| v@ == ser_collection(w) implies k < w.len()
                        && canvas@ == w[k] && canvases.deep_view() == w.subrange(0, k + 1)
                        && v@.skip(j2 as int) == (if k == w.len() - 1 {
                        seq![']'] + seq!['}']
                    } else {
                        seq![','] + (ser_canvases(w.skip(k + 1)) + seq![']'] + seq!['}'])
                    }) by {
                        lemma_canvases_state(v@, j as int, w, k, seq!['}']);
                        assert(canvases.deep_view() =~= w.subrange(0, k + 1));
                    }
                }
                if j2 < n && v[j2] == ',' {
                    proof {
                        let k = canvases@.len() - 1;
                        assert forall|w: Seq<CanvasV>| v@ == ser_collection(w) implies k + 1
                            < w.len() && v@.skip(j2 + 1) == ser_canvases(w.skip(k + 1)) + seq![']']
                            + seq!['}'] by {
                            if k == w.len() - 1 {
                                assert(v@.skip(j2 as int) =~= seq![']'] + seq!['}']);
                                lemma_skip_parts(v@, j2 as int, seq![']'], seq!['}']);
                                assert(v@[j2 as int] == ']');
                                assert(false);
                            }
                            assert(v@.skip(j2 as int) =~= seq![','] + (ser_canvases(w.skip(k + 1))
                                + seq![']'] + seq!['}']));
                            lemma_skip_parts(
                                v@,
                                j2 as int,
                                seq![','],
                                ser_canvases(w.skip(k + 1)) + seq![']'] + seq!['}'],
                            );
                        }
                    }
                    j = j2 + 1;
                } else if j2 < n && v[j2] == ']' {
                    proof {
                        let k = canvases@.len() - 1;
                        assert forall|w: Seq<CanvasV>| v@ == ser_collection(w) implies canvases.deep_view()
                            == w && j2 + 2 == n && v@[j2 + 1] == '}' by {
                            if k < w.len() - 1 {
                                assert(v@.skip(j2 as int) =~= seq![','] + (ser_canvases(
                                    w.skip(k + 1),
                                ) + seq![']'] + seq!['}']));
                                lemma_skip_parts(
                                    v@,
                                    j2 as int,
                                    seq![','],
                                    ser_canvases(w.skip(k + 1)) + seq![']'] + seq!['}'],
                                );
                                assert(v@[j2 as int] == ',');
                                assert(false);
                            }
                            assert(w.subrange(0, k + 1) =~= w);
                            assert(v@.skip(j2 as int) =~= seq![']'] + (seq!['}']
                                + Seq::<char>::empty()));
                            lemma_skip_parts(v@, j2 as int, seq![']'], seq!['}']
                                + Seq::<char>::empty());
                            lemma_skip_parts(v@, j2 + 1, seq!['}'], Seq::<char>::empty());
                            assert(v@.skip(j2 + 2).len() == 0);
                        }
                    }
                    if j2 + 1 < n && v[j2 + 1] == '}' && j2 + 2 == n {
                        return Some(Canvases::new(canvases));
                    }
                    return None;
                } else {
                    proof {
                        let k = canvases@.len() - 1;
                        assert forall|w: Seq<CanvasV>| v@ == ser_collection(w) implies false by {
                            if k == w.len() - 1 {
                                assert(v@.skip(j2 as int) =~= seq![']'] + seq!['}']);
                                lemma_skip_parts(v@, j2 as int, seq![']'], seq!['}']);
                                assert(v@[j2 as int] == ']');
                                assert(j2 < n);
                            } else {
                                assert(v@.skip(j2 as int) =~= seq![','] + (ser_canvases(
                                    w.skip(k + 1),
                                ) + seq![']'] + seq!['}']));
                                lemma_skip_parts(
                                    v@,
                                    j2 as int,
                                    seq![','],
                                    ser_canvases(w.skip(k + 1)) + seq![']'] + seq!['}'],
                                );
                                assert(v@[j2 as int] == ',');
                                assert(j2 < n);
                            }
                        }
                    }
                    return None;
                }
            },
        }
    }
    proof {
        assert forall|w: Seq<CanvasV>| v@ == ser_collection(w) implies false by {
            assert(v@.skip(j as int).len() == 0);
        }
    }
    None
}

/// Deserializes a collection document. A document is accepted only if it is
/// the serialization of the returned collection: the candidate read by the
/// parser is serialized again and compared with the input, so a malformed or
/// truncated document is always `Corrupt`, and since the document determines
/// the collection, an accepted document yields exactly the collection that
/// was saved.
pub fn load_canvases(doc: &str) -> (r: Result<Canvases, StorageError>)
    ensures
        r matches Ok(c) ==> doc@ == ser_collection(c@),
        r matches Ok(c) ==> forall|w: Seq<CanvasV>| doc@ == ser_collection(w) ==> c@ == w,
        forall|w: Seq<CanvasV>| doc@ == ser_collection(w) ==> r is Ok,
        r is Err ==> r == Err::<Canvases, StorageError>(StorageError::Corrupt),
{
    let v = str_chars(doc);
    match parse_collection(&v) {
        None => {
            proof {
                assert forall|w: Seq<CanvasV>| doc@ == ser_collection(w) implies false by {
                    assert(v@ == ser_collection(w));
                }
            }
            Err(StorageError::Corrupt)
        },
        Some(c) => {
            let mut out: Vec<char> = Vec::new();
            push_collection(&mut out, &c);
            if chars_eq(&v, &out) {
                proof {
                    assert forall|w: Seq<CanvasV>| doc@ == ser_collection(w) implies c@ == w by {
                        lemma_document_determines_collection(c@, w);
                    }
                }
                Ok(c)
            } else {
                proof {
                    assert forall|w: Seq<CanvasV>| doc@ == ser_collection(w) implies false by {
                        assert(v@ == ser_collection(w));
                        assert(c@ == w);
                        assert(out@ == v@);
                    }
                }
                Err(StorageError::Corrupt)
            }
        },
    }
}

/// Runs one load-transform-save transaction on a collection document: the
/// document is deserialized, the given transform is applied to the
/// collection, and the new collection is serialized. The caller holds the
/// mutual-exclusion boundary and the durable medium.
pub fn update_canvases<F: FnOnce(Canvases) -> Canvases>(doc: &str, transform: F) -> (r: Result<
    String,
    StorageError,
>)
    requires
        forall|c: Canvases| doc@ == ser_collection(c@) ==> transform.requires((c,)),
    ensures
        r matches Ok(d) ==> exists|c: Canvases, c2: Canvases|
            doc@ == ser_collection(c@) && #[trigger] transform.ensures((c,), c2) && d@
                == ser_collection(c2@),
        forall|w: Seq<CanvasV>| doc@ == ser_collection(w) ==> r is Ok,
        r is Err ==> r == Err::<String, StorageError>(StorageError::Corrupt),
{
    match load_canvases(doc) {
        Ok(c) => {
            let ghost c0 = c;
            let c2 = transform(c);
            let ghost c2v = c2;
            let d = save_canvases(&c2);
            proof {
                assert(doc@ == ser_collection(c0@) && transform.ensures((c0,), c2v) && d@
                    == ser_collection(c2v@));
            }
            Ok(d)
        },
        Err(e) => Err(e),
    }
}

} // verus!
