//! The mathematical model of the credentials file: ghost views of
//! entries, sections and the whole store, the sorted-insertion model of
//! parsing, the resolution of the active profile, and the rendering of a
//! store back to lines of text.

use vstd::prelude::*;

use crate::lines::{
    attr_key, attr_line_of, attr_value, cr_clean, has_eq, header_line_of,
    header_name, is_header_line, join_lines, lemma_attr_line_of,
    lemma_attr_recompose, lemma_header_line_of, lemma_header_name_valid,
    lemma_split_lines_no_newline, no_newline, split_lines, valid_attr, valid_name,
};
use crate::strs::{
    lemma_seq_lt_connected, lemma_seq_lt_irrefl, lemma_seq_lt_trans, seq_lt,
};

verus! {

#[verifier::ext_equal]
pub ghost struct EntryV {
    pub key: Seq<char>,
    pub value: Seq<char>,
}

#[verifier::ext_equal]
pub ghost struct SectionV {
    pub name: Seq<char>,
    pub items: Seq<EntryV>,
}

#[verifier::ext_equal]
pub ghost struct ProfileV {
    pub name: Seq<char>,
    pub default: bool,
    pub items: Seq<EntryV>,
}

#[verifier::ext_equal]
pub ghost struct StoreV {
    pub sections: Seq<SectionV>,
    pub active: Option<Seq<char>>,
}

/// The reserved section name that mirrors the active profile.
pub open spec fn default_name() -> Seq<char> {
    "default"@
}

pub open spec fn entries_sorted(items: Seq<EntryV>) -> bool {
    forall|i: int, j: int|
        0 <= i < j < items.len() ==> seq_lt(#[trigger] items[i].key, #[trigger] items[j].key)
}

pub open spec fn sections_sorted(secs: Seq<SectionV>) -> bool {
    forall|i: int, j: int|
        0 <= i < j < secs.len() ==> seq_lt(#[trigger] secs[i].name, #[trigger] secs[j].name)
}

pub open spec fn entry_wf(e: EntryV) -> bool {
    valid_attr(e.key, e.value)
}

pub open spec fn section_wf(s: SectionV) -> bool {
    &&& valid_name(s.name)
    &&& entries_sorted(s.items)
    &&& forall|i: int| 0 <= i < s.items.len() ==> entry_wf(#[trigger] s.items[i])
}

/// Well-formedness of a store: sections strictly sorted by name, none of
/// them the reserved `default`, every section well formed, and the active
/// name, when present, the name of one of the sections.
pub open spec fn store_wf(st: StoreV) -> bool {
    &&& sections_sorted(st.sections)
    &&& forall|i: int| 0 <= i < st.sections.len() ==> section_wf(#[trigger] st.sections[i])
    &&& forall|i: int| 0 <= i < st.sections.len() ==> (#[trigger] st.sections[i].name)
        != default_name()
    &&& match st.active {
        Option::None => true,
        Option::Some(a) => lookup_items(st.sections, a) is Some,
    }
}

/// Sorted insertion of an attribute row; a row with the same key is
/// replaced, so within a section the last occurrence of a key wins.
pub open spec fn insert_entry(items: Seq<EntryV>, e: EntryV) -> Seq<EntryV>
    decreases items.len(),
{
    if items.len() == 0 {
        seq![e]
    } else if seq_lt(items[0].key, e.key) {
        seq![items[0]] + insert_entry(items.drop_first(), e)
    } else if items[0].key == e.key {
        seq![e] + items.drop_first()
    } else {
        seq![e] + items
    }
}

/// Sorted insertion of a section; a section with the same name is
/// replaced, so the last section under a name wins.
pub open spec fn insert_section(secs: Seq<SectionV>, s: SectionV) -> Seq<SectionV>
    decreases secs.len(),
{
    if secs.len() == 0 {
        seq![s]
    } else if seq_lt(secs[0].name, s.name) {
        seq![secs[0]] + insert_section(secs.drop_first(), s)
    } else if secs[0].name == s.name {
        seq![s] + secs.drop_first()
    } else {
        seq![s] + secs
    }
}

/// The attribute rows of the section called `name`, if one exists.
pub open spec fn lookup_items(secs: Seq<SectionV>, name: Seq<char>) -> Option<
    Seq<EntryV>,
>
    decreases secs.len(),
{
    if secs.len() == 0 {
        Option::None
    } else if secs[0].name == name {
        Option::Some(secs[0].items)
    } else {
        lookup_items(secs.drop_first(), name)
    }
}

/// The first section other than `default` whose attribute rows equal `d`.
pub open spec fn first_match(secs: Seq<SectionV>, d: Seq<EntryV>) -> Option<
    Seq<char>,
>
    decreases secs.len(),
{
    if secs.len() == 0 {
        Option::None
    } else if secs[0].name != default_name() && secs[0].items == d {
        Option::Some(secs[0].name)
    } else {
        first_match(secs.drop_first(), d)
    }
}

/// The active profile: the first section whose attributes equal those of
/// the `default` section, or nothing when `default` is absent or unmatched.
pub open spec fn find_active(secs: Seq<SectionV>) -> Option<Seq<char>> {
    match lookup_items(secs, default_name()) {
        Option::None => Option::None,
        Option::Some(d) => first_match(secs, d),
    }
}

/// Removes the section called `name`, if present.
pub open spec fn remove_section(secs: Seq<SectionV>, name: Seq<char>) -> Seq<
    SectionV,
>
    decreases secs.len(),
{
    if secs.len() == 0 {
        secs
    } else if secs[0].name == name {
        secs.drop_first()
    } else {
        seq![secs[0]] + remove_section(secs.drop_first(), name)
    }
}

/// The parser's running state: the finished sections and the section
/// whose rows are still being collected.
#[verifier::ext_equal]
pub ghost struct ParseState {
    pub secs: Seq<SectionV>,
    pub cur: Option<SectionV>,
}

pub open spec fn parse_push(st: ParseState) -> Seq<SectionV> {
    match st.cur {
        Option::None => st.secs,
        Option::Some(c) => insert_section(st.secs, c),
    }
}

/// One line of input applied to the parser state. A header finishes the
/// current section and opens a new one; a blank line changes nothing; a
/// `key=value` row joins the current section and is dropped when no header
/// has been seen yet; a malformed line changes nothing here because the
/// parse as a whole is rejected.
pub open spec fn parse_step(st: ParseState, l: Seq<char>) -> ParseState {
    if is_header_line(l) {
        ParseState {
            secs: parse_push(st),
            cur: Option::Some(SectionV { name: header_name(l), items: Seq::empty() }),
        }
    } else if l.len() == 0 {
        st
    } else if has_eq(l) {
        match st.cur {
            Option::None => st,
            Option::Some(c) => ParseState {
                secs: st.secs,
                cur: Option::Some(
                    SectionV {
                        name: c.name,
                        items: insert_entry(
                            c.items,
                            EntryV { key: attr_key(l), value: attr_value(l) },
                        ),
                    },
                ),
            },
        }
    } else {
        st
    }
}

pub open spec fn parse_fold(ls: Seq<Seq<char>>, st: ParseState) -> ParseState
    decreases ls.len(),
{
    if ls.len() == 0 {
        st
    } else {
        parse_fold(ls.drop_first(), parse_step(st, ls[0]))
    }
}

pub open spec fn parsed_sections(ls: Seq<Seq<char>>) -> Seq<SectionV> {
    parse_push(parse_fold(ls, ParseState { secs: Seq::empty(), cur: Option::None }))
}

/// A line the grammar accepts: a header, a blank line, or a row with `=`.
pub open spec fn line_ok(l: Seq<char>) -> bool {
    is_header_line(l) || l.len() == 0 || has_eq(l)
}

pub open spec fn lines_ok(ls: Seq<Seq<char>>) -> bool {
    forall|i: int| 0 <= i < ls.len() ==> line_ok(#[trigger] ls[i])
}

pub open spec fn some_header(ls: Seq<Seq<char>>) -> bool {
    exists|i: int| 0 <= i < ls.len() && is_header_line(#[trigger] ls[i])
}

/// The meaning of the whole text: the store it parses to, or nothing when
/// the text is rejected as broken.
pub open spec fn load_store(content: Seq<char>) -> Option<StoreV> {
    let ls = split_lines(content);
    if !(lines_ok(ls) && some_header(ls)) {
        Option::None
    } else {
        let secs = parsed_sections(ls);
        Option::Some(
            StoreV {
                sections: remove_section(secs, default_name()),
                active: find_active(secs),
            },
        )
    }
}

pub open spec fn entry_line(e: EntryV) -> Seq<char> {
    attr_line_of(e.key, e.value)
}

/// The lines of one rendered section: its header, then its rows in order.
pub open spec fn section_lines(s: SectionV) -> Seq<Seq<char>> {
    seq![header_line_of(s.name)] + s.items.map_values(|e: EntryV| entry_line(e))
}

/// The lines of every section after the first, each introduced by one
/// blank separator line.
pub open spec fn sections_lines_tail(secs: Seq<SectionV>) -> Seq<Seq<char>>
    decreases secs.len(),
{
    if secs.len() == 0 {
        Seq::empty()
    } else {
        seq![Seq::<char>::empty()] + section_lines(secs[0]) + sections_lines_tail(
            secs.drop_first(),
        )
    }
}

/// The lines of all sections, one blank line between consecutive ones.
pub open spec fn sections_lines(secs: Seq<SectionV>) -> Seq<Seq<char>>
    decreases secs.len(),
{
    if secs.len() == 0 {
        Seq::empty()
    } else {
        section_lines(secs[0]) + sections_lines_tail(secs.drop_first())
    }
}

/// The lines of the rendered store: every section in sorted order, then,
/// when a profile is active, a final `default` section carrying a copy of
/// its rows, separated like the rest by one blank line.
pub open spec fn render_lines(st: StoreV) -> Seq<Seq<char>> {
    sections_lines(st.sections) + match st.active {
        Option::None => Seq::<Seq<char>>::empty(),
        Option::Some(a) => match lookup_items(st.sections, a) {
            Option::None => Seq::<Seq<char>>::empty(),
            Option::Some(d) => seq![Seq::<char>::empty()] + section_lines(
                SectionV { name: default_name(), items: d },
            ),
        },
    }
}

/// No attribute value ends with a carriage return. Such a value would
/// merge with the newline into a CRLF terminator on disk, and the `\r`
/// would be stripped on the next read.
pub open spec fn section_cr_clean(s: SectionV) -> bool {
    forall|j: int| 0 <= j < s.items.len() ==> cr_clean(entry_line(#[trigger] s.items[j]))
}

pub open spec fn store_cr_clean(st: StoreV) -> bool {
    forall|i: int| 0 <= i < st.sections.len() ==> section_cr_clean(#[trigger] st.sections[i])
}

/// The rendered text of the store.
pub open spec fn render_store(st: StoreV) -> Seq<char> {
    join_lines(render_lines(st))
}

/// Sorted insertion keeps an entry sequence sorted, and adds no entry
/// beyond the inserted one.
pub proof fn lemma_insert_entry(items: Seq<EntryV>, e: EntryV)
    requires
        entries_sorted(items),
    ensures
        entries_sorted(insert_entry(items, e)),
        forall|i: int|
            0 <= i < insert_entry(items, e).len() ==> (#[trigger] insert_entry(
                items,
                e,
            )[i]) == e || items.contains(insert_entry(items, e)[i]),
    decreases items.len(),
{
    let r = insert_entry(items, e);
    if items.len() == 0 {
    } else if seq_lt(items[0].key, e.key) {
        let rest = items.drop_first();
        assert(entries_sorted(rest)) by {
            assert(forall|i: int, j: int|
                0 <= i < j < rest.len() ==> rest[i] == items[i + 1] && rest[j]
                    == items[j + 1]);
        }
        lemma_insert_entry(rest, e);
        let rr = insert_entry(rest, e);
        assert(r == seq![items[0]] + rr);
        assert forall|i: int, j: int|
            0 <= i < j < r.len() implies seq_lt(
            #[trigger] r[i].key,
            #[trigger] r[j].key,
        ) by {
            if i == 0 {
                assert(r[j] == rr[j - 1]);
                if rr[j - 1] == e {
                } else {
                    assert(rest.contains(rr[j - 1]));
                    let k = choose|k: int| 0 <= k < rest.len() && rest[k] == rr[j - 1];
                    assert(items[k + 1] == rr[j - 1]);
                }
            } else {
                assert(r[i] == rr[i - 1] && r[j] == rr[j - 1]);
            }
        }
        assert forall|i: int|
            0 <= i < r.len() implies (#[trigger] r[i]) == e || items.contains(
            r[i],
        ) by {
            if i == 0 {
                assert(items[0] == r[0]);
            } else {
                assert(r[i] == rr[i - 1]);
                if rr[i - 1] != e {
                    assert(rest.contains(rr[i - 1]));
                    let k = choose|k: int| 0 <= k < rest.len() && rest[k] == rr[i - 1];
                    assert(items[k + 1] == r[i]);
                }
            }
        }
    } else if items[0].key == e.key {
        let rest = items.drop_first();
        assert(r == seq![e] + rest);
        assert forall|i: int, j: int|
            0 <= i < j < r.len() implies seq_lt(
            #[trigger] r[i].key,
            #[trigger] r[j].key,
        ) by {
            if i == 0 {
                assert(r[j] == items[j]);
                assert(seq_lt(items[0].key, items[j].key));
            } else {
                assert(r[i] == items[i] && r[j] == items[j]);
            }
        }
        assert forall|i: int|
            0 <= i < r.len() implies (#[trigger] r[i]) == e || items.contains(
            r[i],
        ) by {
            if i >= 1 {
                assert(items[i] == r[i]);
            }
        }
    } else {
        lemma_seq_lt_connected(items[0].key, e.key);
        assert(seq_lt(e.key, items[0].key));
        assert(r == seq![e] + items);
        assert forall|i: int, j: int|
            0 <= i < j < r.len() implies seq_lt(
            #[trigger] r[i].key,
            #[trigger] r[j].key,
        ) by {
            if i == 0 {
                assert(r[j] == items[j - 1]);
                if j - 1 > 0 {
                    assert(seq_lt(items[0].key, items[j - 1].key));
                    lemma_seq_lt_trans(e.key, items[0].key, items[j - 1].key);
                }
            } else {
                assert(r[i] == items[i - 1] && r[j] == items[j - 1]);
            }
        }
        assert forall|i: int|
            0 <= i < r.len() implies (#[trigger] r[i]) == e || items.contains(
            r[i],
        ) by {
            if i >= 1 {
                assert(items[i - 1] == r[i]);
            }
        }
    }
}

/// Inserting an entry whose key is above every present key appends it.
pub proof fn lemma_insert_entry_append(items: Seq<EntryV>, e: EntryV)
    requires
        forall|i: int| 0 <= i < items.len() ==> seq_lt((#[trigger] items[i]).key, e.key),
    ensures
        insert_entry(items, e) == items + seq![e],
    decreases items.len(),
{
    if items.len() == 0 {
        assert(insert_entry(items, e) =~= items + seq![e]);
    } else {
        assert(seq_lt(items[0].key, e.key));
        let rest = items.drop_first();
        assert(forall|i: int|
            0 <= i < rest.len() ==> (#[trigger] rest[i]) == items[i + 1]);
        lemma_insert_entry_append(rest, e);
        assert(seq![items[0]] + (rest + seq![e]) =~= items + seq![e]);
    }
}

/// Sorted insertion keeps a section sequence sorted, and adds no section
/// beyond the inserted one.
pub proof fn lemma_insert_section(secs: Seq<SectionV>, s: SectionV)
    requires
        sections_sorted(secs),
    ensures
        sections_sorted(insert_section(secs, s)),
        forall|i: int|
            0 <= i < insert_section(secs, s).len() ==> (#[trigger] insert_section(
                secs,
                s,
            )[i]) == s || secs.contains(insert_section(secs, s)[i]),
    decreases secs.len(),
{
    let r = insert_section(secs, s);
    if secs.len() == 0 {
    } else if seq_lt(secs[0].name, s.name) {
        let rest = secs.drop_first();
        assert(sections_sorted(rest)) by {
            assert(forall|i: int, j: int|
                0 <= i < j < rest.len() ==> rest[i] == secs[i + 1] && rest[j]
                    == secs[j + 1]);
        }
        lemma_insert_section(rest, s);
        let rr = insert_section(rest, s);
        assert(r == seq![secs[0]] + rr);
        assert forall|i: int, j: int|
            0 <= i < j < r.len() implies seq_lt(
            #[trigger] r[i].name,
            #[trigger] r[j].name,
        ) by {
            if i == 0 {
                assert(r[j] == rr[j - 1]);
                if rr[j - 1] == s {
                } else {
                    assert(rest.contains(rr[j - 1]));
                    let k = choose|k: int| 0 <= k < rest.len() && rest[k] == rr[j - 1];
                    assert(secs[k + 1] == rr[j - 1]);
                }
            } else {
                assert(r[i] == rr[i - 1] && r[j] == rr[j - 1]);
            }
        }
        assert forall|i: int|
            0 <= i < r.len() implies (#[trigger] r[i]) == s || secs.contains(
            r[i],
        ) by {
            if i == 0 {
                assert(secs[0] == r[0]);
            } else {
                assert(r[i] == rr[i - 1]);
                if rr[i - 1] != s {
                    assert(rest.contains(rr[i - 1]));
                    let k = choose|k: int| 0 <= k < rest.len() && rest[k] == rr[i - 1];
                    assert(secs[k + 1] == r[i]);
                }
            }
        }
    } else if secs[0].name == s.name {
        let rest = secs.drop_first();
        assert(r == seq![s] + rest);
        assert forall|i: int, j: int|
            0 <= i < j < r.len() implies seq_lt(
            #[trigger] r[i].name,
            #[trigger] r[j].name,
        ) by {
            if i == 0 {
                assert(r[j] == secs[j]);
                assert(seq_lt(secs[0].name, secs[j].name));
            } else {
                assert(r[i] == secs[i] && r[j] == secs[j]);
            }
        }
        assert forall|i: int|
            0 <= i < r.len() implies (#[trigger] r[i]) == s || secs.contains(
            r[i],
        ) by {
            if i >= 1 {
                assert(secs[i] == r[i]);
            }
        }
    } else {
        lemma_seq_lt_connected(secs[0].name, s.name);
        assert(seq_lt(s.name, secs[0].name));
        assert(r == seq![s] + secs);
        assert forall|i: int, j: int|
            0 <= i < j < r.len() implies seq_lt(
            #[trigger] r[i].name,
            #[trigger] r[j].name,
        ) by {
            if i == 0 {
                assert(r[j] == secs[j - 1]);
                if j - 1 > 0 {
                    assert(seq_lt(secs[0].name, secs[j - 1].name));
                    lemma_seq_lt_trans(s.name, secs[0].name, secs[j - 1].name);
                }
            } else {
                assert(r[i] == secs[i - 1] && r[j] == secs[j - 1]);
            }
        }
        assert forall|i: int|
            0 <= i < r.len() implies (#[trigger] r[i]) == s || secs.contains(
            r[i],
        ) by {
            if i >= 1 {
                assert(secs[i - 1] == r[i]);
            }
        }
    }
}

/// Inserting a section whose name is above every present name appends it.
pub proof fn lemma_insert_section_append(secs: Seq<SectionV>, s: SectionV)
    requires
        forall|i: int| 0 <= i < secs.len() ==> seq_lt((#[trigger] secs[i]).name, s.name),
    ensures
        insert_section(secs, s) == secs + seq![s],
    decreases secs.len(),
{
    if secs.len() == 0 {
        assert(insert_section(secs, s) =~= secs + seq![s]);
    } else {
        assert(seq_lt(secs[0].name, s.name));
        let rest = secs.drop_first();
        assert(forall|i: int|
            0 <= i < rest.len() ==> (#[trigger] rest[i]) == secs[i + 1]);
        lemma_insert_section_append(rest, s);
        assert(seq![secs[0]] + (rest + seq![s]) =~= secs + seq![s]);
    }
}

/// What a lookup answers: the rows of the first section under the name,
/// or nothing exactly when no section carries the name.
pub proof fn lemma_lookup(secs: Seq<SectionV>, name: Seq<char>)
    ensures
        match lookup_items(secs, name) {
            Option::None => forall|i: int|
                0 <= i < secs.len() ==> (#[trigger] secs[i]).name != name,
            Option::Some(d) => exists|i: int|
                0 <= i < secs.len() && (#[trigger] secs[i]).name == name
                    && secs[i].items == d,
        },
    decreases secs.len(),
{
    if secs.len() > 0 && secs[0].name != name {
        let rest = secs.drop_first();
        lemma_lookup(rest, name);
        match lookup_items(secs, name) {
            Option::None => {
                assert forall|i: int|
                    0 <= i < secs.len() implies (#[trigger] secs[i]).name != name by {
                    if i >= 1 {
                        assert(rest[i - 1] == secs[i]);
                    }
                }
            },
            Option::Some(d) => {
                let k = choose|k: int|
                    0 <= k < rest.len() && (#[trigger] rest[k]).name == name
                        && rest[k].items == d;
                assert(secs[k + 1].name == name && secs[k + 1].items == d);
            },
        }
    }
}

/// Looking a name up after a sorted insertion: the inserted section
/// answers for its own name, every other name is answered as before.
pub proof fn lemma_lookup_insert(secs: Seq<SectionV>, s: SectionV, name: Seq<char>)
    ensures
        lookup_items(insert_section(secs, s), name) == if name == s.name {
            Option::Some(s.items)
        } else {
            lookup_items(secs, name)
        },
    decreases secs.len(),
{
    let r = insert_section(secs, s);
    let goal = if name == s.name {
        Option::Some(s.items)
    } else {
        lookup_items(secs, name)
    };
    if secs.len() == 0 {
        assert(r == seq![s]);
        assert(r[0] == s);
        assert(r.drop_first() =~= secs);
        assert(lookup_items(r, name) == goal);
    } else if seq_lt(secs[0].name, s.name) {
        lemma_seq_lt_irrefl(s.name);
        lemma_lookup_insert(secs.drop_first(), s, name);
        assert(r == seq![secs[0]] + insert_section(secs.drop_first(), s));
        assert(r[0] == secs[0]);
        assert(r.drop_first() =~= insert_section(secs.drop_first(), s));
        assert(lookup_items(secs, name) == if secs[0].name == name {
            Option::Some(secs[0].items)
        } else {
            lookup_items(secs.drop_first(), name)
        });
        assert(lookup_items(r, name) == goal);
    } else if secs[0].name == s.name {
        assert(r == seq![s] + secs.drop_first());
        assert(r[0] == s);
        assert(r.drop_first() =~= secs.drop_first());
        assert(lookup_items(r, name) == goal);
    } else {
        assert(r == seq![s] + secs);
        assert(r[0] == s);
        assert(r.drop_first() =~= secs);
        assert(lookup_items(r, name) == goal);
    }
}

/// Inserting a section named `default` does not change which profile the
/// match scan finds, because the scan skips `default`.
pub proof fn lemma_first_match_insert_default(
    secs: Seq<SectionV>,
    s: SectionV,
    d: Seq<EntryV>,
)
    requires
        s.name == default_name(),
    ensures
        first_match(insert_section(secs, s), d) == first_match(secs, d),
    decreases secs.len(),
{
    let r = insert_section(secs, s);
    if secs.len() == 0 {
        assert(r == seq![s]);
        assert(r[0] == s);
        assert(r.drop_first() =~= secs);
    } else if seq_lt(secs[0].name, s.name) {
        lemma_first_match_insert_default(secs.drop_first(), s, d);
        assert(r == seq![secs[0]] + insert_section(secs.drop_first(), s));
        assert(r[0] == secs[0]);
        assert(r.drop_first() =~= insert_section(secs.drop_first(), s));
    } else if secs[0].name == s.name {
        assert(r == seq![s] + secs.drop_first());
        assert(r[0] == s);
        assert(r.drop_first() =~= secs.drop_first());
    } else {
        assert(r == seq![s] + secs);
        assert(r[0] == s);
        assert(r.drop_first() =~= secs);
    }
}

/// A found match names a real section, other than `default`, whose rows
/// equal the searched rows.
pub proof fn lemma_first_match_elem(secs: Seq<SectionV>, d: Seq<EntryV>)
    ensures
        match first_match(secs, d) {
            Option::None => true,
            Option::Some(m) => m != default_name() && exists|i: int|
                0 <= i < secs.len() && (#[trigger] secs[i]).name == m && secs[i].items
                    == d,
        },
    decreases secs.len(),
{
    if secs.len() > 0 {
        if secs[0].name != default_name() && secs[0].items == d {
            assert(secs[0].name == first_match(secs, d)->0 && secs[0].items == d);
        } else {
            let rest = secs.drop_first();
            lemma_first_match_elem(rest, d);
            match first_match(secs, d) {
                Option::None => {},
                Option::Some(m) => {
                    let k = choose|k: int|
                        0 <= k < rest.len() && (#[trigger] rest[k]).name == m
                            && rest[k].items == d;
                    assert(secs[k + 1].name == m && secs[k + 1].items == d);
                },
            }
        }
    }
}

/// When the active profile is the only one with its rows, the scan finds
/// exactly it.
pub proof fn lemma_first_match_unique(secs: Seq<SectionV>, a: Seq<char>, d: Seq<EntryV>)
    requires
        a != default_name(),
        lookup_items(secs, a) == Option::Some(d),
        forall|i: int|
            0 <= i < secs.len() && (#[trigger] secs[i]).items == d ==> secs[i].name == a,
    ensures
        first_match(secs, d) == Option::Some(a),
    decreases secs.len(),
{
    if secs.len() > 0 {
        if secs[0].name != default_name() && secs[0].items == d {
            assert(secs[0].name == a);
        } else {
            if secs[0].name == a {
                assert(secs[0].items == d);
                assert(false);
            }
            let rest = secs.drop_first();
            assert(forall|i: int|
                0 <= i < rest.len() ==> (#[trigger] rest[i]) == secs[i + 1]);
            lemma_first_match_unique(rest, a, d);
        }
    }
}

/// Removing a section that was just inserted into a list free of its name
/// restores the list.
pub proof fn lemma_remove_insert(secs: Seq<SectionV>, s: SectionV)
    requires
        forall|i: int| 0 <= i < secs.len() ==> (#[trigger] secs[i]).name != s.name,
    ensures
        remove_section(insert_section(secs, s), s.name) == secs,
    decreases secs.len(),
{
    let r = insert_section(secs, s);
    if secs.len() == 0 {
        assert(r == seq![s]);
        assert(r[0] == s);
        assert(remove_section(r, s.name) =~= secs);
    } else if seq_lt(secs[0].name, s.name) {
        let rest = secs.drop_first();
        assert(forall|i: int|
            0 <= i < rest.len() ==> (#[trigger] rest[i]) == secs[i + 1]);
        lemma_remove_insert(rest, s);
        assert(r == seq![secs[0]] + insert_section(rest, s));
        assert(r[0] == secs[0]);
        assert(r.drop_first() =~= insert_section(rest, s));
        assert(seq![secs[0]] + rest =~= secs);
    } else if secs[0].name == s.name {
        assert(false);
    } else {
        assert(r == seq![s] + secs);
        assert(r[0] == s);
        assert(r.drop_first() =~= secs);
    }
}

/// Removing from a sorted list keeps it sorted, keeps only original
/// sections, and leaves no section under the removed name.
pub proof fn lemma_remove_props(secs: Seq<SectionV>, name: Seq<char>)
    requires
        sections_sorted(secs),
    ensures
        sections_sorted(remove_section(secs, name)),
        forall|i: int|
            0 <= i < remove_section(secs, name).len() ==> secs.contains(
                #[trigger] remove_section(secs, name)[i],
            ),
        forall|i: int|
            0 <= i < remove_section(secs, name).len() ==> (#[trigger] remove_section(
                secs,
                name,
            )[i]).name != name,
    decreases secs.len(),
{
    let r = remove_section(secs, name);
    if secs.len() == 0 {
    } else if secs[0].name == name {
        let rest = secs.drop_first();
        assert(r == rest);
        assert forall|i: int, j: int|
            0 <= i < j < r.len() implies seq_lt(
            #[trigger] r[i].name,
            #[trigger] r[j].name,
        ) by {
            assert(r[i] == secs[i + 1] && r[j] == secs[j + 1]);
        }
        assert forall|i: int| 0 <= i < r.len() implies secs.contains(#[trigger] r[i]) by {
            assert(secs[i + 1] == r[i]);
        }
        assert forall|i: int| 0 <= i < r.len() implies (#[trigger] r[i]).name != name by {
            assert(r[i] == secs[i + 1]);
            assert(seq_lt(secs[0].name, secs[i + 1].name));
            lemma_seq_lt_irrefl(name);
        }
    } else {
        let rest = secs.drop_first();
        assert(sections_sorted(rest)) by {
            assert(forall|i: int, j: int|
                0 <= i < j < rest.len() ==> rest[i] == secs[i + 1] && rest[j]
                    == secs[j + 1]);
        }
        lemma_remove_props(rest, name);
        let rr = remove_section(rest, name);
        assert(r == seq![secs[0]] + rr);
        assert forall|i: int, j: int|
            0 <= i < j < r.len() implies seq_lt(
            #[trigger] r[i].name,
            #[trigger] r[j].name,
        ) by {
            if i == 0 {
                assert(r[j] == rr[j - 1]);
                assert(rest.contains(rr[j - 1]));
                let k = choose|k: int| 0 <= k < rest.len() && rest[k] == rr[j - 1];
                assert(secs[k + 1] == rr[j - 1]);
            } else {
                assert(r[i] == rr[i - 1] && r[j] == rr[j - 1]);
            }
        }
        assert forall|i: int| 0 <= i < r.len() implies secs.contains(#[trigger] r[i]) by {
            if i == 0 {
                assert(secs[0] == r[0]);
            } else {
                assert(r[i] == rr[i - 1]);
                assert(rest.contains(rr[i - 1]));
                let k = choose|k: int| 0 <= k < rest.len() && rest[k] == rr[i - 1];
                assert(secs[k + 1] == r[i]);
            }
        }
        assert forall|i: int| 0 <= i < r.len() implies (#[trigger] r[i]).name != name by {
            if i >= 1 {
                assert(r[i] == rr[i - 1]);
            }
        }
    }
}

/// A section under a different name survives a removal.
pub proof fn lemma_remove_keeps(secs: Seq<SectionV>, rem: Seq<char>, m: Seq<char>)
    requires
        m != rem,
        exists|i: int| 0 <= i < secs.len() && (#[trigger] secs[i]).name == m,
    ensures
        exists|i: int|
            0 <= i < remove_section(secs, rem).len() && (#[trigger] remove_section(
                secs,
                rem,
            )[i]).name == m,
    decreases secs.len(),
{
    let r = remove_section(secs, rem);
    let w = choose|i: int| 0 <= i < secs.len() && (#[trigger] secs[i]).name == m;
    if secs[0].name == rem {
        let rest = secs.drop_first();
        assert(w >= 1);
        assert(rest[w - 1] == secs[w]);
    } else {
        let rest = secs.drop_first();
        let rr = remove_section(rest, rem);
        assert(r == seq![secs[0]] + rr);
        if w == 0 {
            assert(r[0] == secs[0]);
        } else {
            assert(rest[w - 1] == secs[w]);
            lemma_remove_keeps(rest, rem, m);
            let k = choose|i: int| 0 <= i < rr.len() && (#[trigger] rr[i]).name == m;
            assert(r[k + 1] == rr[k]);
        }
    }
}

/// Folding over concatenated line sequences folds over each in turn.
pub proof fn lemma_parse_fold_concat(xs: Seq<Seq<char>>, ys: Seq<Seq<char>>, st: ParseState)
    ensures
        parse_fold(xs + ys, st) == parse_fold(ys, parse_fold(xs, st)),
    decreases xs.len(),
{
    if xs.len() == 0 {
        assert(xs + ys =~= ys);
    } else {
        assert((xs + ys)[0] == xs[0]);
        assert((xs + ys).drop_first() =~= xs.drop_first() + ys);
        lemma_parse_fold_concat(xs.drop_first(), ys, parse_step(st, xs[0]));
    }
}

/// Folding over a single line takes exactly one step.
pub proof fn lemma_parse_fold_one(l: Seq<char>, st: ParseState)
    ensures
        parse_fold(seq![l], st) == parse_step(st, l),
{
    let ls = seq![l];
    assert(ls[0] == l);
    assert(ls.drop_first() =~= Seq::<Seq<char>>::empty());
    assert(parse_fold(Seq::<Seq<char>>::empty(), parse_step(st, l)) == parse_step(st, l));
}

/// Feeding the rendered rows of a sorted section into the parser appends
/// them, in order, to the rows already collected.
pub proof fn lemma_parse_rows(
    rows: Seq<EntryV>,
    name: Seq<char>,
    acc: Seq<EntryV>,
    secs: Seq<SectionV>,
)
    requires
        forall|i: int| 0 <= i < rows.len() ==> entry_wf(#[trigger] rows[i]),
        entries_sorted(rows),
        forall|i: int, j: int|
            0 <= i < acc.len() && 0 <= j < rows.len() ==> seq_lt(
                (#[trigger] acc[i]).key,
                (#[trigger] rows[j]).key,
            ),
    ensures
        parse_fold(
            rows.map_values(|e: EntryV| entry_line(e)),
            ParseState { secs, cur: Option::Some(SectionV { name, items: acc }) },
        ) == (ParseState {
            secs,
            cur: Option::Some(SectionV { name, items: acc + rows }),
        }),
    decreases rows.len(),
{
    let lines = rows.map_values(|e: EntryV| entry_line(e));
    let st = ParseState { secs, cur: Option::Some(SectionV { name, items: acc }) };
    if rows.len() == 0 {
        assert(lines.len() == 0);
        assert(acc + rows =~= acc);
        assert(SectionV { name, items: acc + rows } =~= SectionV { name, items: acc });
    } else {
        let e0 = rows[0];
        assert(lines[0] == entry_line(e0));
        assert(entry_wf(e0));
        lemma_attr_line_of(e0.key, e0.value);
        let l0 = entry_line(e0);
        assert(!is_header_line(l0) && l0.len() > 0 && has_eq(l0));
        assert(EntryV { key: attr_key(l0), value: attr_value(l0) } =~= e0);
        assert forall|i: int|
            0 <= i < acc.len() implies seq_lt((#[trigger] acc[i]).key, e0.key) by {}
        lemma_insert_entry_append(acc, e0);
        let st1 = parse_step(st, l0);
        assert(st1 == ParseState {
            secs,
            cur: Option::Some(SectionV { name, items: acc + seq![e0] }),
        });
        let rest = rows.drop_first();
        assert(forall|i: int| 0 <= i < rest.len() ==> (#[trigger] rest[i]) == rows[i + 1]);
        assert(lines.drop_first() =~= rest.map_values(|e: EntryV| entry_line(e)));
        lemma_parse_rows(rest, name, acc + seq![e0], secs);
        assert(parse_fold(lines, st) == parse_fold(lines.drop_first(), st1));
        assert((acc + seq![e0]) + rest =~= acc + rows);
    }
}

/// Feeding one rendered well-formed section into the parser finishes the
/// section that was open and leaves the rendered one open and complete.
pub proof fn lemma_parse_section(s: SectionV, st: ParseState)
    requires
        section_wf(s),
    ensures
        parse_fold(section_lines(s), st) == (ParseState {
            secs: parse_push(st),
            cur: Option::Some(s),
        }),
{
    let h = header_line_of(s.name);
    let rows_lines = s.items.map_values(|e: EntryV| entry_line(e));
    lemma_header_line_of(s.name);
    assert(section_lines(s) =~= seq![h] + rows_lines);
    let st1 = parse_step(st, h);
    assert(st1 == ParseState {
        secs: parse_push(st),
        cur: Option::Some(SectionV { name: s.name, items: Seq::empty() }),
    });
    lemma_parse_fold_one(h, st);
    lemma_parse_fold_concat(seq![h], rows_lines, st);
    lemma_parse_rows(s.items, s.name, Seq::empty(), parse_push(st));
    let st2 = ParseState {
        secs: parse_push(st),
        cur: Option::Some(SectionV { name: s.name, items: Seq::empty() + s.items }),
    };
    assert(Seq::<EntryV>::empty() + s.items =~= s.items);
    assert(st2 == ParseState { secs: parse_push(st), cur: Option::Some(s) });
}

/// All names the parser state already holds sort below all names in the
/// sections still to come.
pub open spec fn state_names_below(st: ParseState, secs: Seq<SectionV>) -> bool {
    &&& forall|i: int, j: int|
        0 <= i < st.secs.len() && 0 <= j < secs.len() ==> seq_lt(
            (#[trigger] st.secs[i]).name,
            (#[trigger] secs[j]).name,
        )
    &&& match st.cur {
        Option::None => true,
        Option::Some(c) => forall|j: int|
            0 <= j < secs.len() ==> seq_lt(c.name, (#[trigger] secs[j]).name),
    }
}

/// One rendered section followed by the blank-separated rest, fed into
/// the parser, appends all of them to the sections already finished.
proof fn lemma_parse_sections_step(secs: Seq<SectionV>, st: ParseState)
    requires
        secs.len() > 0,
        sections_sorted(secs),
        forall|i: int| 0 <= i < secs.len() ==> section_wf(#[trigger] secs[i]),
        sections_sorted(st.secs),
        state_names_below(st, secs),
    ensures
        parse_push(
            parse_fold(
                section_lines(secs[0]) + sections_lines_tail(secs.drop_first()),
                st,
            ),
        ) == parse_push(st) + secs,
    decreases secs.len(), 0int,
{
    {
        let s0 = secs[0];
        let rest = secs.drop_first();
        assert(forall|i: int| 0 <= i < rest.len() ==> (#[trigger] rest[i]) == secs[i + 1]);
        lemma_parse_fold_concat(section_lines(s0), sections_lines_tail(rest), st);
        lemma_parse_section(s0, st);
        let st1 = ParseState { secs: parse_push(st), cur: Option::Some(s0) };
        match st.cur {
            Option::None => {},
            Option::Some(c) => {
                lemma_insert_section(st.secs, c);
            },
        }
        assert forall|i: int, j: int|
            0 <= i < st1.secs.len() && 0 <= j < secs.len() implies seq_lt(
            (#[trigger] st1.secs[i]).name,
            (#[trigger] secs[j]).name,
        ) by {
            match st.cur {
                Option::None => {},
                Option::Some(c) => {
                    if st1.secs[i] != c {
                        assert(st.secs.contains(st1.secs[i]));
                        let k = choose|k: int|
                            0 <= k < st.secs.len() && st.secs[k] == st1.secs[i];
                    }
                },
            }
        }
        assert(sections_sorted(st1.secs));
        assert(state_names_below(st1, rest)) by {
            assert(forall|i: int, j: int|
                0 <= i < st1.secs.len() && 0 <= j < rest.len() ==> seq_lt(
                    (#[trigger] st1.secs[i]).name,
                    (#[trigger] rest[j]).name,
                ));
        }
        lemma_parse_sections_tail(rest, st1);
        assert forall|i: int|
            0 <= i < parse_push(st).len() implies seq_lt(
            (#[trigger] parse_push(st)[i]).name,
            s0.name,
        ) by {
            match st.cur {
                Option::None => {},
                Option::Some(c) => {
                    if parse_push(st)[i] != c {
                        assert(st.secs.contains(parse_push(st)[i]));
                        let k = choose|k: int|
                            0 <= k < st.secs.len() && st.secs[k] == parse_push(st)[i];
                    }
                },
            }
        }
        lemma_insert_section_append(parse_push(st), s0);
        assert(parse_push(st1) == parse_push(st) + seq![s0]);
        assert((parse_push(st) + seq![s0]) + rest =~= parse_push(st) + secs);
    }
}

/// Blank-separated rendered sections, fed into the parser, append
/// themselves to the sections already finished.
proof fn lemma_parse_sections_tail(secs: Seq<SectionV>, st: ParseState)
    requires
        sections_sorted(secs),
        forall|i: int| 0 <= i < secs.len() ==> section_wf(#[trigger] secs[i]),
        sections_sorted(st.secs),
        state_names_below(st, secs),
    ensures
        parse_push(parse_fold(sections_lines_tail(secs), st)) == parse_push(st) + secs,
    decreases secs.len(), 1int,
{
    if secs.len() == 0 {
        assert(parse_push(st) + secs =~= parse_push(st));
    } else {
        let blank = Seq::<char>::empty();
        let rest = secs.drop_first();
        assert(sections_lines_tail(secs) =~= seq![blank] + (section_lines(secs[0])
            + sections_lines_tail(rest)));
        assert(!is_header_line(blank));
        lemma_parse_fold_one(blank, st);
        assert(parse_step(st, blank) == st);
        lemma_parse_fold_concat(
            seq![blank],
            section_lines(secs[0]) + sections_lines_tail(rest),
            st,
        );
        lemma_parse_sections_step(secs, st);
    }
}

/// Feeding the rendered sections of a sorted store into the parser
/// appends them, in order, to the sections already finished.
pub proof fn lemma_parse_sections(secs: Seq<SectionV>, st: ParseState)
    requires
        sections_sorted(secs),
        forall|i: int| 0 <= i < secs.len() ==> section_wf(#[trigger] secs[i]),
        sections_sorted(st.secs),
        state_names_below(st, secs),
    ensures
        parse_push(parse_fold(sections_lines(secs), st)) == parse_push(st) + secs,
{
    if secs.len() == 0 {
        assert(parse_push(st) + secs =~= parse_push(st));
    } else {
        assert(sections_lines(secs) == section_lines(secs[0]) + sections_lines_tail(
            secs.drop_first(),
        ));
        lemma_parse_sections_step(secs, st);
    }
}

/// `default` is itself a valid section name.
pub proof fn lemma_default_name_valid()
    ensures
        valid_name(default_name()),
{
    reveal_strlit("default");
}

/// Removing an absent name changes nothing.
pub proof fn lemma_remove_absent(secs: Seq<SectionV>, name: Seq<char>)
    requires
        forall|i: int| 0 <= i < secs.len() ==> (#[trigger] secs[i]).name != name,
    ensures
        remove_section(secs, name) == secs,
    decreases secs.len(),
{
    if secs.len() == 0 {
    } else {
        let rest = secs.drop_first();
        assert(forall|i: int| 0 <= i < rest.len() ==> (#[trigger] rest[i]) == secs[i + 1]);
        lemma_remove_absent(rest, name);
        assert(seq![secs[0]] + rest =~= secs);
    }
}

/// When the scan finds nothing, no section other than `default` has the
/// searched rows.
pub proof fn lemma_first_match_none(secs: Seq<SectionV>, d: Seq<EntryV>)
    requires
        first_match(secs, d) is None,
    ensures
        forall|i: int|
            0 <= i < secs.len() ==> ((#[trigger] secs[i]).name == default_name()
                || secs[i].items != d),
    decreases secs.len(),
{
    if secs.len() > 0 {
        let rest = secs.drop_first();
        lemma_first_match_none(rest, d);
        assert forall|i: int|
            0 <= i < secs.len() implies ((#[trigger] secs[i]).name == default_name()
                || secs[i].items != d) by {
            if i >= 1 {
                assert(rest[i - 1] == secs[i]);
            }
        }
    }
}

/// Every line of a rendered well-formed section obeys the grammar, has
/// no newline, ends in no carriage return, and the first one is that
/// section's header.
pub proof fn lemma_section_lines_facts(s: SectionV)
    requires
        section_wf(s),
        section_cr_clean(s),
    ensures
        forall|i: int|
            0 <= i < section_lines(s).len() ==> line_ok(#[trigger] section_lines(s)[i])
                && no_newline(section_lines(s)[i]) && cr_clean(section_lines(s)[i]),
        section_lines(s).len() == s.items.len() + 1,
        is_header_line(section_lines(s)[0]),
{
    let ls = section_lines(s);
    lemma_header_line_of(s.name);
    assert(ls[0] == header_line_of(s.name));
    assert forall|i: int|
        0 <= i < ls.len() implies line_ok(#[trigger] ls[i]) && no_newline(ls[i])
        && cr_clean(ls[i]) by {
        if i == 0 {
            let h = header_line_of(s.name);
            assert(h[h.len() - 1] == ']');
        } else {
            let e = s.items[i - 1];
            assert(ls[i] == entry_line(e));
            assert(entry_wf(e));
            assert(cr_clean(entry_line(e)));
            lemma_attr_line_of(e.key, e.value);
        }
    }
}

/// Every line of the blank-separated rendered sections obeys the grammar,
/// has no newline, and ends in no carriage return.
proof fn lemma_sections_lines_tail_facts(secs: Seq<SectionV>)
    requires
        forall|i: int| 0 <= i < secs.len() ==> section_wf(#[trigger] secs[i]),
        forall|i: int| 0 <= i < secs.len() ==> section_cr_clean(#[trigger] secs[i]),
    ensures
        forall|i: int|
            0 <= i < sections_lines_tail(secs).len() ==> line_ok(
                #[trigger] sections_lines_tail(secs)[i],
            ) && no_newline(sections_lines_tail(secs)[i]) && cr_clean(
                sections_lines_tail(secs)[i],
            ),
    decreases secs.len(),
{
    if secs.len() > 0 {
        let rest = secs.drop_first();
        assert(forall|i: int| 0 <= i < rest.len() ==> (#[trigger] rest[i]) == secs[i + 1]);
        lemma_sections_lines_tail_facts(rest);
        lemma_section_lines_facts(secs[0]);
        let blank = Seq::<char>::empty();
        let head = seq![blank] + section_lines(secs[0]);
        let ls = sections_lines_tail(secs);
        assert(ls == head + sections_lines_tail(rest));
        assert forall|i: int|
            0 <= i < ls.len() implies line_ok(#[trigger] ls[i]) && no_newline(ls[i])
            && cr_clean(ls[i]) by {
            if i == 0 {
                assert(ls[i] == blank);
            } else if i < head.len() {
                assert(ls[i] == section_lines(secs[0])[i - 1]);
            } else {
                assert(ls[i] == sections_lines_tail(rest)[i - head.len()]);
            }
        }
    }
}

/// Every line of the rendered sections obeys the grammar, has no newline,
/// and ends in no carriage return; when there is a section, the first
/// line is a header.
pub proof fn lemma_sections_lines_facts(secs: Seq<SectionV>)
    requires
        forall|i: int| 0 <= i < secs.len() ==> section_wf(#[trigger] secs[i]),
        forall|i: int| 0 <= i < secs.len() ==> section_cr_clean(#[trigger] secs[i]),
    ensures
        forall|i: int|
            0 <= i < sections_lines(secs).len() ==> line_ok(
                #[trigger] sections_lines(secs)[i],
            ) && no_newline(sections_lines(secs)[i]) && cr_clean(sections_lines(secs)[i]),
        secs.len() > 0 ==> sections_lines(secs).len() > 0 && is_header_line(
            sections_lines(secs)[0],
        ),
{
    if secs.len() > 0 {
        let rest = secs.drop_first();
        assert(forall|i: int| 0 <= i < rest.len() ==> (#[trigger] rest[i]) == secs[i + 1]);
        lemma_sections_lines_tail_facts(rest);
        lemma_section_lines_facts(secs[0]);
        let head = section_lines(secs[0]);
        let ls = sections_lines(secs);
        assert(ls == head + sections_lines_tail(rest));
        assert forall|i: int|
            0 <= i < ls.len() implies line_ok(#[trigger] ls[i]) && no_newline(ls[i])
            && cr_clean(ls[i]) by {
            if i < head.len() {
                assert(ls[i] == head[i]);
            } else {
                assert(ls[i] == sections_lines_tail(rest)[i - head.len()]);
            }
        }
        assert(ls[0] == head[0]);
    }
}

/// The parser state stays well formed: finished sections sorted and well
/// formed, the open section well formed.
pub open spec fn parse_state_wf(st: ParseState) -> bool {
    &&& sections_sorted(st.secs)
    &&& forall|i: int| 0 <= i < st.secs.len() ==> section_wf(#[trigger] st.secs[i])
    &&& match st.cur {
        Option::None => true,
        Option::Some(c) => section_wf(c),
    }
}

pub proof fn lemma_parse_push_wf(st: ParseState)
    requires
        parse_state_wf(st),
    ensures
        sections_sorted(parse_push(st)),
        forall|i: int| 0 <= i < parse_push(st).len() ==> section_wf(
            #[trigger] parse_push(st)[i],
        ),
{
    match st.cur {
        Option::None => {},
        Option::Some(c) => {
            lemma_insert_section(st.secs, c);
            assert forall|i: int|
                0 <= i < parse_push(st).len() implies section_wf(
                #[trigger] parse_push(st)[i],
            ) by {
                if parse_push(st)[i] != c {
                    assert(st.secs.contains(parse_push(st)[i]));
                    let k = choose|k: int|
                        0 <= k < st.secs.len() && st.secs[k] == parse_push(st)[i];
                }
            }
        },
    }
}

/// One acceptable, newline-free line keeps the parser state well formed.
pub proof fn lemma_parse_step_wf(st: ParseState, l: Seq<char>)
    requires
        parse_state_wf(st),
        line_ok(l),
        no_newline(l),
    ensures
        parse_state_wf(parse_step(st, l)),
{
    if is_header_line(l) {
        lemma_parse_push_wf(st);
        lemma_header_name_valid(l);
    } else if l.len() == 0 {
    } else if has_eq(l) {
        match st.cur {
            Option::None => {},
            Option::Some(c) => {
                let e = EntryV { key: attr_key(l), value: attr_value(l) };
                assert(entry_wf(e)) by {
                    crate::strs::lemma_first_at(l, '=');
                    lemma_attr_recompose(l);
                }
                lemma_insert_entry(c.items, e);
                let items2 = insert_entry(c.items, e);
                assert forall|i: int|
                    0 <= i < items2.len() implies entry_wf(#[trigger] items2[i]) by {
                    if items2[i] != e {
                        assert(c.items.contains(items2[i]));
                        let k = choose|k: int|
                            0 <= k < c.items.len() && c.items[k] == items2[i];
                    }
                }
            },
        }
    }
}

/// Acceptable, newline-free lines keep the parser state well formed.
pub proof fn lemma_parse_fold_wf(ls: Seq<Seq<char>>, st: ParseState)
    requires
        parse_state_wf(st),
        lines_ok(ls),
        forall|i: int| 0 <= i < ls.len() ==> no_newline(#[trigger] ls[i]),
    ensures
        parse_state_wf(parse_fold(ls, st)),
    decreases ls.len(),
{
    if ls.len() > 0 {
        lemma_parse_step_wf(st, ls[0]);
        let rest = ls.drop_first();
        assert(forall|i: int| 0 <= i < rest.len() ==> (#[trigger] rest[i]) == ls[i + 1]);
        lemma_parse_fold_wf(rest, parse_step(st, ls[0]));
    }
}

/// Whatever text the parser accepts, the store it yields is well formed.
pub proof fn lemma_load_store_wf(content: Seq<char>)
    requires
        load_store(content) is Some,
    ensures
        store_wf(load_store(content)->0),
{
    let ls = split_lines(content);
    let init = ParseState { secs: Seq::empty(), cur: Option::None };
    lemma_split_lines_no_newline(content);
    lemma_parse_fold_wf(ls, init);
    lemma_parse_push_wf(parse_fold(ls, init));
    let secs = parsed_sections(ls);
    let kept = remove_section(secs, default_name());
    lemma_remove_props(secs, default_name());
    assert forall|i: int| 0 <= i < kept.len() implies section_wf(#[trigger] kept[i]) by {
        assert(secs.contains(kept[i]));
        let k = choose|k: int| 0 <= k < secs.len() && secs[k] == kept[i];
    }
    match find_active(secs) {
        Option::None => {},
        Option::Some(m) => {
            let d = lookup_items(secs, default_name())->0;
            lemma_first_match_elem(secs, d);
            lemma_remove_keeps(secs, default_name(), m);
            lemma_lookup(kept, m);
            if lookup_items(kept, m) is None {
                let w = choose|i: int|
                    0 <= i < kept.len() && (#[trigger] kept[i]).name == m;
                assert(false);
            }
        },
    }
}

/// Insertion after a strictly smaller prefix happens in the suffix.
pub proof fn lemma_insert_entry_skip(items: Seq<EntryV>, e: EntryV, k: int)
    requires
        0 <= k <= items.len(),
        forall|j: int| 0 <= j < k ==> seq_lt((#[trigger] items[j]).key, e.key),
    ensures
        insert_entry(items, e) == items.take(k) + insert_entry(items.skip(k), e),
    decreases k,
{
    if k == 0 {
        assert(items.skip(0) =~= items);
        assert(items.take(0) + insert_entry(items, e) =~= insert_entry(items, e));
    } else {
        assert(seq_lt(items[0].key, e.key));
        let rest = items.drop_first();
        assert(forall|i: int| 0 <= i < rest.len() ==> (#[trigger] rest[i]) == items[i + 1]);
        lemma_insert_entry_skip(rest, e, k - 1);
        assert(rest.skip(k - 1) =~= items.skip(k));
        assert(seq![items[0]] + (rest.take(k - 1) + insert_entry(rest.skip(k - 1), e))
            =~= items.take(k) + insert_entry(items.skip(k), e));
    }
}

/// Insertion after a strictly smaller prefix happens in the suffix.
pub proof fn lemma_insert_section_skip(secs: Seq<SectionV>, s: SectionV, k: int)
    requires
        0 <= k <= secs.len(),
        forall|j: int| 0 <= j < k ==> seq_lt((#[trigger] secs[j]).name, s.name),
    ensures
        insert_section(secs, s) == secs.take(k) + insert_section(secs.skip(k), s),
    decreases k,
{
    if k == 0 {
        assert(secs.skip(0) =~= secs);
        assert(secs.take(0) + insert_section(secs, s) =~= insert_section(secs, s));
    } else {
        assert(seq_lt(secs[0].name, s.name));
        let rest = secs.drop_first();
        assert(forall|i: int| 0 <= i < rest.len() ==> (#[trigger] rest[i]) == secs[i + 1]);
        lemma_insert_section_skip(rest, s, k - 1);
        assert(rest.skip(k - 1) =~= secs.skip(k));
        assert(seq![secs[0]] + (rest.take(k - 1) + insert_section(rest.skip(k - 1), s))
            =~= secs.take(k) + insert_section(secs.skip(k), s));
    }
}

/// A lookup scan may start past a prefix without the name.
pub proof fn lemma_lookup_skip(secs: Seq<SectionV>, name: Seq<char>, k: int)
    requires
        0 <= k <= secs.len(),
        forall|j: int| 0 <= j < k ==> (#[trigger] secs[j]).name != name,
    ensures
        lookup_items(secs, name) == lookup_items(secs.skip(k), name),
    decreases k,
{
    if k == 0 {
        assert(secs.skip(0) =~= secs);
    } else {
        let rest = secs.drop_first();
        assert(forall|i: int| 0 <= i < rest.len() ==> (#[trigger] rest[i]) == secs[i + 1]);
        lemma_lookup_skip(rest, name, k - 1);
        assert(rest.skip(k - 1) =~= secs.skip(k));
    }
}

/// A match scan may start past a prefix without a match.
pub proof fn lemma_first_match_skip(secs: Seq<SectionV>, d: Seq<EntryV>, k: int)
    requires
        0 <= k <= secs.len(),
        forall|j: int|
            0 <= j < k ==> ((#[trigger] secs[j]).name == default_name() || secs[j].items
                != d),
    ensures
        first_match(secs, d) == first_match(secs.skip(k), d),
    decreases k,
{
    if k == 0 {
        assert(secs.skip(0) =~= secs);
    } else {
        let rest = secs.drop_first();
        assert(forall|i: int| 0 <= i < rest.len() ==> (#[trigger] rest[i]) == secs[i + 1]);
        lemma_first_match_skip(rest, d, k - 1);
        assert(rest.skip(k - 1) =~= secs.skip(k));
    }
}

/// Removing a name whose first occurrence is at `k` removes exactly the
/// element at `k`.
pub proof fn lemma_remove_section_at(secs: Seq<SectionV>, name: Seq<char>, k: int)
    requires
        0 <= k < secs.len(),
        secs[k].name == name,
        forall|j: int| 0 <= j < k ==> (#[trigger] secs[j]).name != name,
    ensures
        remove_section(secs, name) == secs.remove(k),
    decreases k,
{
    if k == 0 {
        assert(remove_section(secs, name) =~= secs.remove(0));
    } else {
        let rest = secs.drop_first();
        assert(forall|i: int| 0 <= i < rest.len() ==> (#[trigger] rest[i]) == secs[i + 1]);
        lemma_remove_section_at(rest, name, k - 1);
        assert(seq![secs[0]] + rest.remove(k - 1) =~= secs.remove(k));
    }
}

/// Rendering one more blank-separated section appends a blank line and
/// that section's lines.
proof fn lemma_sections_lines_tail_snoc(secs: Seq<SectionV>, s: SectionV)
    ensures
        sections_lines_tail(secs.push(s)) == sections_lines_tail(secs) + (seq![
            Seq::<char>::empty(),
        ] + section_lines(s)),
    decreases secs.len(),
{
    if secs.len() == 0 {
        assert(secs.push(s)[0] == s);
        assert(secs.push(s).drop_first() =~= secs);
        assert(sections_lines_tail(secs.push(s)) =~= sections_lines_tail(secs) + (seq![
            Seq::<char>::empty(),
        ] + section_lines(s)));
    } else {
        assert(secs.push(s)[0] == secs[0]);
        assert(secs.push(s).drop_first() =~= secs.drop_first().push(s));
        lemma_sections_lines_tail_snoc(secs.drop_first(), s);
        assert(sections_lines_tail(secs.push(s)) =~= sections_lines_tail(secs) + (seq![
            Seq::<char>::empty(),
        ] + section_lines(s)));
    }
}

/// Rendering one more section appends its lines, preceded by one blank
/// separator line unless it is the first section.
pub proof fn lemma_sections_lines_snoc(secs: Seq<SectionV>, s: SectionV)
    ensures
        sections_lines(secs.push(s)) == if secs.len() == 0 {
            section_lines(s)
        } else {
            sections_lines(secs) + (seq![Seq::<char>::empty()] + section_lines(s))
        },
{
    if secs.len() == 0 {
        assert(secs.push(s)[0] == s);
        assert(secs.push(s).drop_first() =~= secs);
        assert(sections_lines(secs.push(s)) =~= section_lines(s));
    } else {
        assert(secs.push(s)[0] == secs[0]);
        assert(secs.push(s).drop_first() =~= secs.drop_first().push(s));
        lemma_sections_lines_tail_snoc(secs.drop_first(), s);
        assert(sections_lines(secs.push(s)) =~= sections_lines(secs) + (seq![
            Seq::<char>::empty(),
        ] + section_lines(s)));
    }
}

} // verus!
