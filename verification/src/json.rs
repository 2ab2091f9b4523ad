//! The JSON text of a translation document: every map is written with its
//! names in its order, every string is encoded by `serde_json`.
use vstd::prelude::*;
use vstd::string::StringExecFns;

use crate::translation::{Translation, entries_view, lemma_entries_view, strings_view};
use crate::tree::{TranslationTree, find, lemma_find, lemma_take_step};

verus! {

/// The hexadecimal digit, in lower case, of `n` below sixteen.
pub open spec fn hex_digit(n: u32) -> char {
    if n < 10 {
        (('0' as u32) + n) as char
    } else {
        (('a' as u32) + n - 10) as char
    }
}

/// How a JSON string literal writes the character `c`: a quote, a backslash
/// and the control characters are escaped, every other character stands as
/// it is.
pub open spec fn json_escape(c: char) -> Seq<char> {
    if c == '"' {
        seq!['\\', '"']
    } else if c == '\\' {
        seq!['\\', '\\']
    } else if c == '\u{8}' {
        seq!['\\', 'b']
    } else if c == '\t' {
        seq!['\\', 't']
    } else if c == '\n' {
        seq!['\\', 'n']
    } else if c == '\u{c}' {
        seq!['\\', 'f']
    } else if c == '\r' {
        seq!['\\', 'r']
    } else if (c as u32) < 0x20 {
        seq!['\\', 'u', '0', '0', hex_digit((c as u32) / 16), hex_digit((c as u32) % 16)]
    } else {
        seq![c]
    }
}

/// The characters of `text`, each written as `json_escape` says.
pub open spec fn json_escaped(text: Seq<char>) -> Seq<char>
    decreases text.len(),
{
    if text.len() == 0 {
        Seq::empty()
    } else {
        json_escaped(text.drop_last()) + json_escape(text.last())
    }
}

/// The JSON string literal of `text`: its escaped characters in quotes.
pub open spec fn json_string(text: Seq<char>) -> Seq<char> {
    seq!['"'] + json_escaped(text) + seq!['"']
}

/// Calls `serde_json::to_string` on `text`. The contract claims that the
/// result is the JSON string literal of `text` as `json_string` states it:
/// serde_json's compact writer puts the text in quotes and escapes, after
/// its escape table, the quote, the backslash and the characters below
/// U+0020 (`\b`, `\t`, `\n`, `\f`, `\r`, others as `\u00` and two hex
/// digits in lower case). For a `&str` written into a `Vec` the call never
/// fails, so the fallback to an empty string is never taken.
#[verifier::external_body]
fn quote_json(text: &String) -> (r: String)
    ensures
        r@ == json_string(text@),
{
    serde_json::to_string(text.as_str()).unwrap_or_default()
}

/// The error for a name of an order that has no entry.
pub open spec fn missing_entry_error() -> Seq<char> {
    "Everything in order should be in content aswell"@
}

/// The JSON text of `t`: a value is its string literal; a map lists, in its
/// order, every name with the text of its entry. A name of the order that
/// has no entry is an error.
pub open spec fn json_of(t: TranslationTree) -> Result<Seq<char>, Seq<char>>
    decreases t, 0int,
{
    match t {
        TranslationTree::Leaf { text, .. } => Ok(json_string(text)),
        TranslationTree::Branch { entries, order } => match json_members(entries, order) {
            Ok(m) => Ok(seq!['{'] + m + seq!['}']),
            Err(e) => Err(e),
        },
    }
}

/// The members of a JSON object for the names of `ord`, separated by commas.
pub open spec fn json_members(es: Seq<(Seq<char>, TranslationTree)>, ord: Seq<Seq<char>>) -> Result<
    Seq<char>,
    Seq<char>,
>
    decreases es, ord.len(),
{
    if ord.len() == 0 {
        Ok(Seq::empty())
    } else {
        match json_members(es, ord.drop_last()) {
            Err(e) => Err(e),
            Ok(prev) => {
                let k = ord.last();
                match find(es, k) {
                    None => Err(missing_entry_error()),
                    Some(i) => {
                        proof {
                            lemma_find(es, k);
                        }
                        match json_of(es[i].1) {
                            Err(e) => Err(e),
                            Ok(v) => {
                                let member = json_string(k) + seq![':'] + v;
                                if ord.len() == 1 {
                                    Ok(member)
                                } else {
                                    Ok(prev + seq![','] + member)
                                }
                            },
                        }
                    },
                }
            },
        }
    }
}

proof fn lemma_members_error_stays(
    es: Seq<(Seq<char>, TranslationTree)>,
    ord: Seq<Seq<char>>,
    i: int,
    j: int,
)
    requires
        0 <= i <= j <= ord.len(),
        json_members(es, ord.take(i)) is Err,
    ensures
        json_members(es, ord.take(j)) == json_members(es, ord.take(i)),
    decreases j - i,
{
    if j > i {
        lemma_members_error_stays(es, ord, i, j - 1);
        lemma_take_step(ord, j - 1);
    }
}

impl Translation {
    /// The JSON text of the document, every map with its names in its order.
    /// Fails when the order of a map names an entry that it lacks.
    pub fn to_json(&self) -> (r: Result<String, String>)
        ensures
            match r {
                Ok(s) => json_of(self.tree()) == Ok::<Seq<char>, Seq<char>>(s@),
                Err(e) => json_of(self.tree()) == Err::<Seq<char>, Seq<char>>(e@),
            },
        decreases *self,
    {
        match self {
            Translation::Value(text, _) => Ok(quote_json(text)),
            Translation::Nested { content, order } => {
                let ghost es = entries_view(content@);
                let ghost ov = strings_view(order@);
                proof {
                    lemma_entries_view(content@);
                    assert(ov.take(0) =~= Seq::<Seq<char>>::empty());
                }
                let mut body = String::new();
                let mut i: usize = 0;
                #[verifier::loop_isolation(false)]
                while i < order.len()
                    invariant
                        i <= order.len(),
                        json_members(es, ov.take(i as int)) == Ok::<Seq<char>, Seq<char>>(body@),
                    decreases order.len() - i,
                {
                    let ghost prev = body@;
                    proof {
                        lemma_take_step(ov, i as int);
                        assert(ov[i as int] == order@[i as int]@);
                    }
                    match Self::find_entry(content, &order[i]) {
                        None => {
                            proof {
                                lemma_members_error_stays(es, ov, i + 1, ov.len() as int);
                                assert(ov.take(ov.len() as int) =~= ov);
                            }
                            return Err(String::from_str("Everything in order should be in content aswell"));
                        },
                        Some(idx) => {
                            let qk = quote_json(&order[i]);
                            proof {
                                assert(decreases_to!(*self => content@[idx as int].1));
                                assert(es[idx as int].1 == content@[idx as int].1.tree());
                            }
                            let value = content[idx].1.to_json();
                            match value {
                                Err(e) => {
                                    proof {
                                        lemma_members_error_stays(es, ov, i + 1, ov.len() as int);
                                        assert(ov.take(ov.len() as int) =~= ov);
                                    }
                                    return Err(e);
                                },
                                Ok(v) => {
                                    if i > 0 {
                                        proof {
                                            reveal_strlit(",");
                                        }
                                        body.append(",");
                                    }
                                    body.append(qk.as_str());
                                    proof {
                                        reveal_strlit(":");
                                    }
                                    body.append(":");
                                    body.append(v.as_str());
                                    proof {
                                        if i > 0 {
                                            assert(body@ =~= prev + seq![','] + (qk@ + seq![':'] + v@));
                                        } else {
                                            assert(body@ =~= qk@ + seq![':'] + v@);
                                        }
                                    }
                                },
                            }
                        },
                    }
                    i += 1;
                }
                proof {
                    assert(ov.take(ov.len() as int) =~= ov);
                    reveal_strlit("{");
                    reveal_strlit("}");
                }
                let mut out = String::from_str("{");
                out.append(body.as_str());
                out.append("}");
                proof {
                    assert(out@ =~= seq!['{'] + body@ + seq!['}']);
                }
                Ok(out)
            },
        }
    }
}

} // verus!
