//! The lookup from a sequence index to its identifier, read from the
//! index dump.
use std::collections::HashMap;
use vstd::prelude::*;
use vstd::string::*;
use crate::error::{ErrorModel, FulgorError};
use crate::text::{
    after_last, after_last_char, before_first, chars_of, ends_with_at, find_char, last_index_of,
    parse_u64_at, parse_u64_spec, strip_suffix,
};

verus! {

broadcast use vstd::std_specs::hash::group_hash_axioms;

/// The identifier kept for a dump line: what follows its last `/` without
/// `suffix`, or, where it holds no `/`, the whole line.
pub open spec fn line_identifier(line: Seq<char>, suffix: Seq<char>) -> Seq<char> {
    if last_index_of(line, '/') >= 0 {
        strip_suffix(after_last(line, '/'), suffix)
    } else {
        line
    }
}

/// A dump line read as its index (the first tab-separated field) and its identifier.
pub open spec fn parse_line_spec(line: Seq<char>, suffix: Seq<char>) -> Result<
    (u64, Seq<char>),
    ErrorModel,
> {
    match parse_u64_spec(before_first(line, '\t')) {
        Some(i) => Ok((i, line_identifier(line, suffix))),
        None => Err(ErrorModel::MalformedIndex { line }),
    }
}

/// Whether a dump line opens the data: its first character is `0`.
pub open spec fn starts_data(line: Seq<char>) -> bool {
    line.len() > 0 && line[0] == '0'
}

/// The mapping read from `lines` onto `acc`, once `started` or from the first
/// line that opens the data; a later line with an index already seen replaces it.
pub open spec fn index_from(
    lines: Seq<Seq<char>>,
    suffix: Seq<char>,
    started: bool,
    acc: Map<u64, Seq<char>>,
) -> Result<Map<u64, Seq<char>>, ErrorModel>
    decreases lines.len(),
{
    if lines.len() == 0 {
        Ok(acc)
    } else if started || starts_data(lines[0]) {
        match parse_line_spec(lines[0], suffix) {
            Ok((i, id)) => index_from(lines.drop_first(), suffix, true, acc.insert(i, id)),
            Err(e) => Err(e),
        }
    } else {
        index_from(lines.drop_first(), suffix, false, acc)
    }
}

/// The mapping that the dump `lines` describe.
pub open spec fn dump_index(lines: Seq<Seq<char>>, suffix: Seq<char>) -> Result<
    Map<u64, Seq<char>>,
    ErrorModel,
> {
    index_from(lines, suffix, false, Map::empty())
}

pub open spec fn lines_view(lines: Seq<String>) -> Seq<Seq<char>> {
    lines.map_values(|l: String| l@)
}

/// Sequence identifiers by index.
pub struct IdentifierIndex {
    pub map: HashMap<u64, String>,
}

impl View for IdentifierIndex {
    type V = Map<u64, Seq<char>>;

    open spec fn view(&self) -> Map<u64, Seq<char>> {
        self.map@.map_values(|v: String| v@)
    }
}

impl IdentifierIndex {
    pub fn new() -> (r: IdentifierIndex)
        ensures
            r@ == Map::<u64, Seq<char>>::empty(),
    {
        let r = IdentifierIndex { map: HashMap::new() };
        assert(r@ =~= Map::<u64, Seq<char>>::empty());
        r
    }

    /// Records `id` under `index`, replacing what stood there.
    pub fn insert(&mut self, index: u64, id: String)
        ensures
            final(self)@ == old(self)@.insert(index, id@),
    {
        self.map.insert(index, id);
        assert(self@ =~= old(self)@.insert(index, id@));
    }

    pub fn get(&self, index: u64) -> (r: Option<&String>)
        ensures
            r is Some <==> self@.contains_key(index),
            r is Some ==> r->0@ == self@[index],
    {
        self.map.get(&index)
    }
}

/// Splits a dump line into its index and its identifier.
pub fn parse_line(line: &str, suffix: &str) -> (r: Result<(u64, String), FulgorError>)
    ensures
        match r {
            Ok((i, id)) => parse_line_spec(line@, suffix@) == Ok::<(u64, Seq<char>), ErrorModel>((i, id@)),
            Err(e) => parse_line_spec(line@, suffix@) == Err::<(u64, Seq<char>), ErrorModel>(e@),
        },
{
    let cs = chars_of(line);
    let suf = chars_of(suffix);
    let n = cs.len();
    let tab = find_char(&cs, 0, n, '\t');
    proof {
        assert(cs@.subrange(0, n as int) =~= line@);
    }
    let index = match parse_u64_at(&cs, 0, tab) {
        Some(i) => i,
        None => {
            return Err(FulgorError::MalformedIndex { line: line.to_owned() });
        },
    };
    let start = after_last_char(&cs, 0, n, '/');
    if start == 0 {
        return Ok((index, line.to_owned()));
    }
    let mut end = n;
    if ends_with_at(&cs, start, n, &suf) {
        end = n - suf.len();
    }
    let id = line.substring_char(start, end).to_owned();
    proof {
        let part = after_last(line@, '/');
        assert(part =~= cs@.subrange(start as int, n as int));
        assert(id@ =~= strip_suffix(part, suffix@));
    }
    Ok((index, id))
}

/// Reads the identifier dump `lines`: the data start at the first line whose
/// first character is `0`, and a repeated index keeps the last identifier.
pub fn read_mfur_ids(lines: &Vec<String>, suffix: &str) -> (r: Result<IdentifierIndex, FulgorError>)
    ensures
        match r {
            Ok(ix) => dump_index(lines_view(lines@), suffix@) == Ok::<Map<u64, Seq<char>>, ErrorModel>(ix@),
            Err(e) => dump_index(lines_view(lines@), suffix@) == Err::<Map<u64, Seq<char>>, ErrorModel>(e@),
        },
{
    let ghost all = lines_view(lines@);
    let mut ix = IdentifierIndex::new();
    let mut started = false;
    let mut i: usize = 0;
    assert(all.subrange(0, all.len() as int) =~= all);
    while i < lines.len()
        invariant
            i <= lines@.len(),
            all == lines_view(lines@),
            dump_index(all, suffix@) == index_from(all.subrange(i as int, all.len() as int), suffix@, started, ix@),
        decreases lines@.len() - i,
    {
        let line = &lines[i];
        let ghost rest = all.subrange(i as int, all.len() as int);
        assert(rest[0] == line@);
        assert(rest.drop_first() =~= all.subrange(i + 1, all.len() as int));
        let opens = !line.as_str().is_empty() && line.as_str().get_char(0) == '0';
        if started || opens {
            match parse_line(line.as_str(), suffix) {
                Ok((index, id)) => {
                    ix.insert(index, id);
                },
                Err(e) => {
                    return Err(e);
                },
            }
            started = true;
        }
        i = i + 1;
    }
    assert(all.subrange(i as int, all.len() as int).len() == 0);
    Ok(ix)
}


/// A dump line that ends in a path `.../name` followed by the suffix yields
/// `name`, whatever comes before the last `/`; a line without `/` yields the
/// whole line, the suffix not stripped.
pub proof fn lemma_identifier_stripping(
    pre: Seq<char>,
    name: Seq<char>,
    suffix: Seq<char>,
    bare: Seq<char>,
)
    requires
        !name.contains('/'),
        !suffix.contains('/'),
        !bare.contains('/'),
    ensures
        line_identifier(pre + seq!['/'] + name + suffix, suffix) == name,
        line_identifier(bare, suffix) == bare,
{
    let l = pre + seq!['/'] + name + suffix;
    let k = pre.len() as int;
    assert(l[k] == '/');
    assert forall|j: int| k < j < l.len() implies l[j] != '/' by {
        if j < k + 1 + name.len() {
            assert(l[j] == name[j - k - 1]);
        } else {
            assert(l[j] == suffix[j - k - 1 - name.len()]);
        }
    }
    crate::text::lemma_last_index_of_at(l, '/', k);
    let part = after_last(l, '/');
    assert(part =~= name + suffix);
    assert((name + suffix).subrange(name.len() as int, (name + suffix).len() as int) =~= suffix);
    assert((name + suffix).subrange(0, name.len() as int) =~= name);
    assert forall|j: int| -1 < j < bare.len() implies bare[j] != '/' by {
        if bare[j] == '/' {
            assert(bare.contains('/'));
        }
    }
    crate::text::lemma_last_index_of_at(bare, '/', -1);
}

} // verus!
