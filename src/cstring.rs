use vstd::prelude::*;

verus! {

/// The bytes of a fixed-width field up to its first NUL byte (or all of
/// them when there is none).
pub open spec fn field_text(f: Seq<u8>) -> Seq<u8>
    decreases f.len(),
{
    if f.len() == 0 {
        f
    } else if f[0] == 0 {
        Seq::empty()
    } else {
        seq![f[0]] + field_text(f.drop_first())
    }
}

/// No byte of `s` is NUL.
pub open spec fn nul_free(s: Seq<u8>) -> bool {
    forall|i: int| 0 <= i < s.len() ==> #[trigger] s[i] != 0
}

/// Each byte read as the character with the same code point.
pub open spec fn latin1(s: Seq<u8>) -> Seq<char> {
    s.map_values(|b: u8| b as char)
}

/// A field's text is no longer than the field.
pub proof fn lemma_field_text_len(f: Seq<u8>)
    ensures
        field_text(f).len() <= f.len(),
    decreases f.len(),
{
    if f.len() > 0 && f[0] != 0 {
        lemma_field_text_len(f.drop_first());
    }
}

/// A NUL-free prefix of a field is a prefix of its text.
pub proof fn lemma_field_text_split(f: Seq<u8>, j: int)
    requires
        0 <= j <= f.len(),
        nul_free(f.subrange(0, j)),
    ensures
        field_text(f) == f.subrange(0, j) + field_text(f.subrange(j, f.len() as int)),
    decreases j,
{
    if j > 0 {
        let g = f.drop_first();
        assert(nul_free(g.subrange(0, j - 1))) by {
            assert forall|i: int| 0 <= i < j - 1 implies #[trigger] g.subrange(0, j - 1)[i] != 0 by {
                assert(f.subrange(0, j)[i + 1] != 0);
            }
        }
        lemma_field_text_split(g, j - 1);
        assert(f.subrange(0, j)[0] != 0);
        assert(g.subrange(j - 1, g.len() as int) =~= f.subrange(j, f.len() as int));
        assert(f.subrange(0, j) =~= seq![f[0]] + g.subrange(0, j - 1));
    } else {
        assert(f.subrange(0, 0) + field_text(f.subrange(0, f.len() as int)) =~= field_text(f)) by {
            assert(f.subrange(0, f.len() as int) =~= f);
        }
    }
}

/// Where a field's NUL-free run ends, its text ends.
pub proof fn lemma_field_text_end(f: Seq<u8>, j: int)
    requires
        0 <= j <= f.len(),
        nul_free(f.subrange(0, j)),
        j == f.len() || f[j] == 0,
    ensures
        field_text(f) == f.subrange(0, j),
{
    lemma_field_text_split(f, j);
    let rest = f.subrange(j, f.len() as int);
    if j < f.len() {
        assert(rest[0] == 0);
    }
    assert(f.subrange(0, j) + Seq::<u8>::empty() =~= f.subrange(0, j));
}

/// Relies on `String::push`: the character is appended at the end.
#[verifier::external_body]
fn push_char(s: &mut String, c: char)
    ensures
        final(s)@ == old(s)@.push(c),
{
    s.push(c)
}

/// A text read from a fixed-width, NUL-padded byte field.
pub struct CString {
    data: String,
}

impl View for CString {
    type V = Seq<char>;

    closed spec fn view(&self) -> Seq<char> {
        self.data@
    }
}

impl CString {
    /// An empty text.
    pub fn new() -> (r: Self)
        ensures
            r@ == Seq::<char>::empty(),
    {
        CString { data: String::new() }
    }

    /// The text read from `field`: its bytes up to the first NUL, each taken
    /// as one character.
    pub fn from_bytes(field: &[u8]) -> (r: Self)
        ensures
            r@ == latin1(field_text(field@)),
    {
        let mut data = String::new();
        let mut i: usize = 0;
        while i < field.len() && field[i] != 0
            invariant
                0 <= i <= field@.len(),
                nul_free(field@.subrange(0, i as int)),
                data@ == latin1(field@.subrange(0, i as int)),
            decreases field@.len() - i,
        {
            push_char(&mut data, field[i] as char);
            proof {
                assert(nul_free(field@.subrange(0, i + 1))) by {
                    assert forall|k: int| 0 <= k < i + 1 implies #[trigger] field@.subrange(0, i + 1)[k] != 0 by {
                        if k < i {
                            assert(field@.subrange(0, i as int)[k] != 0);
                        }
                    }
                }
                assert(latin1(field@.subrange(0, i + 1)) =~= latin1(field@.subrange(0, i as int)).push(field@[i as int] as char));
            }
            i = i + 1;
        }
        proof {
            lemma_field_text_end(field@, i as int);
        }
        CString { data }
    }

    /// The text as a string slice.
    pub fn as_str(&self) -> (r: &str)
        ensures
            r@ == self@,
    {
        self.data.as_str()
    }

    /// The text as an owned string.
    pub fn to_string(&self) -> (r: String)
        ensures
            r@ == self@,
    {
        self.data.clone()
    }
}

} // verus!
