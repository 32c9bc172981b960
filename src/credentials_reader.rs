//! The credentials file: nested `<name>value</name>` elements, each leaf read as the
//! dotted path of its element names and the text it holds.
use vstd::prelude::*;

use crate::symbol_table::names;
use crate::text::{chars_of, push_char};

verus! {

/// Why a credentials text could not be read. Lines count from zero.
#[derive(Clone, Copy, Debug, PartialEq, Eq, Structural)]
pub enum CredentialsError {
    /// The text ends with `<`.
    OpenAtEnd,
    /// A closing tag with no element open, on the given line.
    UnmatchedClose(u64),
    /// A closing tag whose name is not that of the open element, on the given line.
    Mismatch(u64),
    /// A `>` outside any tag, on the given line.
    StrayClose(u64),
    /// A closing tag with no text read for its element.
    MissingEntry,
}

/// What the reader holds between two positions of the text.
pub struct XmlState {
    /// 0 between tags, 1 in an opening tag, 2 in a closing tag.
    pub status: int,
    pub line: int,
    pub tmp: Seq<char>,
    pub open: Seq<Seq<char>>,
    pub entries: Seq<Seq<char>>,
    pub out: Seq<(Seq<char>, Seq<char>)>,
}

/// Each name of `path` followed by a point, then `last`.
pub open spec fn dotted(path: Seq<Seq<char>>, last: Seq<char>) -> Seq<char>
    decreases path.len(),
{
    if path.len() == 0 {
        last
    } else {
        path[0] + seq!['.'] + dotted(path.drop_first(), last)
    }
}

pub open spec fn xml_start() -> XmlState {
    XmlState {
        status: 0,
        line: 0,
        tmp: Seq::empty(),
        open: Seq::empty(),
        entries: Seq::empty(),
        out: Seq::empty(),
    }
}

/// The `(path, value)` pairs of the text `cs` read from position `i` on, in the order
/// their elements close.
pub open spec fn xml_from(cs: Seq<char>, i: int, st: XmlState) -> Result<
    Seq<(Seq<char>, Seq<char>)>,
    CredentialsError,
>
    decreases cs.len() - i,
{
    if i < 0 || i >= cs.len() {
        Ok(st.out)
    } else if cs[i] == '<' {
        if i == cs.len() - 1 {
            Err(CredentialsError::OpenAtEnd)
        } else {
            let entries = if st.open.len() > 0 {
                st.entries.push(st.tmp)
            } else {
                st.entries
            };
            if cs[i + 1] != '/' {
                xml_from(cs, i + 1, XmlState { status: 1, tmp: Seq::empty(), entries, ..st })
            } else if st.open.len() == 0 {
                Err(CredentialsError::UnmatchedClose(st.line as u64))
            } else {
                xml_from(cs, i + 2, XmlState { status: 2, tmp: Seq::empty(), entries, ..st })
            }
        }
    } else if cs[i] == '>' {
        if st.status == 1 {
            xml_from(
                cs,
                i + 1,
                XmlState { status: 0, open: st.open.push(st.tmp), tmp: Seq::empty(), ..st },
            )
        } else if st.status == 2 {
            if st.open.len() == 0 {
                Err(CredentialsError::UnmatchedClose(st.line as u64))
            } else if st.tmp != st.open.last() {
                Err(CredentialsError::Mismatch(st.line as u64))
            } else if st.entries.len() == 0 {
                Err(CredentialsError::MissingEntry)
            } else {
                let rest = st.open.drop_last();
                xml_from(
                    cs,
                    i + 1,
                    XmlState {
                        status: 0,
                        open: rest,
                        entries: st.entries.drop_last(),
                        out: st.out.push((dotted(rest, st.open.last()), st.entries.last())),
                        tmp: Seq::empty(),
                        ..st
                    },
                )
            }
        } else {
            Err(CredentialsError::StrayClose(st.line as u64))
        }
    } else {
        let c = cs[i];
        xml_from(
            cs,
            i + 1,
            XmlState {
                line: if c == '\n' {
                    st.line + 1
                } else {
                    st.line
                },
                tmp: if c != '\n' && c != '\r' && c != ' ' {
                    st.tmp.push(c)
                } else {
                    st.tmp
                },
                ..st
            },
        )
    }
}

pub open spec fn pair_views(v: Seq<(String, String)>) -> Seq<(Seq<char>, Seq<char>)> {
    v.map_values(|p: (String, String)| (p.0@, p.1@))
}

/// Appends the text of `t` to `s`.
pub(crate) fn append_str(s: &mut String, t: &str)
    ensures
        final(s)@ == old(s)@ + t@,
{
    let cs = chars_of(t);
    let mut i: usize = 0;
    while i < cs.len()
        invariant
            i <= cs@.len(),
            cs@ == t@,
            s@ == old(s)@ + cs@.take(i as int),
        decreases cs@.len() - i,
    {
        push_char(s, cs[i]);
        i = i + 1;
        proof {
            assert(cs@.take(i as int) =~= cs@.take(i - 1).push(cs@[i - 1]));
        }
    }
    proof {
        assert(cs@.take(i as int) =~= cs@);
    }
}

/// The dotted path of the open elements `open[from..]` and then `last`.
fn dotted_path(open: &Vec<String>, from: usize, last: &String) -> (r: String)
    requires
        from <= open@.len(),
    ensures
        r@ == dotted(names(open@).skip(from as int), last@),
    decreases open@.len() - from,
{
    if from == open.len() {
        proof {
            assert(names(open@).skip(from as int) =~= Seq::<Seq<char>>::empty());
        }
        return last.clone();
    }
    let mut r = open[from].clone();
    push_char(&mut r, '.');
    let tail = dotted_path(open, from + 1, last);
    append_str(&mut r, tail.as_str());
    proof {
        let p = names(open@).skip(from as int);
        assert(p.drop_first() =~= names(open@).skip(from + 1));
        assert(p[0] == open@[from as int]@);
        assert(p[0] + seq!['.'] + dotted(p.drop_first(), last@) =~= open@[from as int]@.push('.')
            + dotted(names(open@).skip(from + 1), last@));
    }
    r
}

/// Where the credentials are kept.
pub struct CredentialsReader {
    file: String,
}

impl CredentialsReader {
    pub closed spec fn path(&self) -> Seq<char> {
        self.file@
    }

    pub fn new(file_path: String) -> (r: Self)
        ensures
            r.path() == file_path@,
    {
        CredentialsReader { file: file_path }
    }

    /// The path of the credentials file.
    pub fn file(&self) -> (r: &String)
        ensures
            r@ == self.path(),
    {
        &self.file
    }

    /// The `(path, value)` pairs of the credentials text, in the order their elements
    /// close; a later pair for the same path replaces an earlier one.
    pub fn get_credentials(&self, raw_data: &Vec<char>) -> (r: Result<
        Vec<(String, String)>,
        CredentialsError,
    >)
        ensures
            match r {
                Ok(v) => xml_from(raw_data@, 0, xml_start()) == Ok::<
                    Seq<(Seq<char>, Seq<char>)>,
                    CredentialsError,
                >(pair_views(v@)),
                Err(e) => xml_from(raw_data@, 0, xml_start()) == Err::<
                    Seq<(Seq<char>, Seq<char>)>,
                    CredentialsError,
                >(e),
            },
    {
        let n: usize = raw_data.len();
        let mut tmp: String = String::new();
        let mut out: Vec<(String, String)> = Vec::new();
        let mut open: Vec<String> = Vec::new();
        let mut entries: Vec<String> = Vec::new();
        let mut status: u8 = 0;
        let mut line: u64 = 0;
        let mut i: usize = 0;
        proof {
            assert(names(open@) =~= Seq::<Seq<char>>::empty());
            assert(names(entries@) =~= Seq::<Seq<char>>::empty());
            assert(pair_views(out@) =~= Seq::<(Seq<char>, Seq<char>)>::empty());
        }
        while i < n
            invariant
                n == raw_data@.len(),
                i <= n + 1,
                line <= i,
                status <= 2,
                xml_from(raw_data@, i as int, XmlState {
                    status: status as int,
                    line: line as int,
                    tmp: tmp@,
                    open: names(open@),
                    entries: names(entries@),
                    out: pair_views(out@),
                }) == xml_from(raw_data@, 0, xml_start()),
            decreases n + 1 - i,
        {
            let c = raw_data[i];
            if c == '<' {
                if i == n - 1 {
                    return Err(CredentialsError::OpenAtEnd);
                }
                if open.len() > 0 {
                    let ghost before = entries@;
                    entries.push(tmp);
                    proof {
                        assert(names(entries@) =~= names(before).push(tmp@));
                    }
                }
                tmp = String::new();
                if raw_data[i + 1] != '/' {
                    status = 1;
                    i = i + 1;
                } else {
                    if open.len() == 0 {
                        return Err(CredentialsError::UnmatchedClose(line));
                    }
                    status = 2;
                    i = i + 2;
                }
            } else if c == '>' {
                if status == 1 {
                    let ghost before = open@;
                    open.push(tmp);
                    proof {
                        assert(names(open@) =~= names(before).push(tmp@));
                    }
                } else if status == 2 {
                    let ghost before_open = open@;
                    let ghost before_entries = entries@;
                    let ghost before_out = out@;
                    match open.pop() {
                        None => {
                            return Err(CredentialsError::UnmatchedClose(line));
                        },
                        Some(v) => {
                            proof {
                                assert(names(open@) =~= names(before_open).drop_last());
                                assert(names(before_open).last() == v@);
                            }
                            if tmp != v {
                                return Err(CredentialsError::Mismatch(line));
                            }
                            let full_path = dotted_path(&open, 0, &v);
                            proof {
                                assert(names(open@).skip(0) =~= names(open@));
                            }
                            match entries.pop() {
                                Some(p) => {
                                    proof {
                                        assert(names(entries@) =~= names(before_entries).drop_last());
                                        assert(names(before_entries).last() == p@);
                                    }
                                    out.push((full_path, p));
                                    proof {
                                        assert(pair_views(out@) =~= pair_views(before_out).push(
                                            (dotted(names(open@), v@), p@),
                                        ));
                                    }
                                },
                                None => {
                                    return Err(CredentialsError::MissingEntry);
                                },
                            }
                        },
                    }
                } else {
                    return Err(CredentialsError::StrayClose(line));
                }
                tmp = String::new();
                status = 0;
                i = i + 1;
            } else {
                if c == '\n' {
                    line = line + 1;
                }
                if c != '\n' && c != '\r' && c != ' ' {
                    push_char(&mut tmp, c);
                }
                i = i + 1;
            }
        }
        Ok(out)
    }
}

} // verus!
