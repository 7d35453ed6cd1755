//! The credentials file as a value: profiles with ordered key/value
//! attributes, a parser from the INI-like text, a deterministic serializer
//! back to it, and the profile operations the context service needs.

use vstd::prelude::*;

use crate::ctx::CTXError;
use crate::lines::{
    attr_key, attr_value, classify_line, header_line_of, is_header_line,
    join_lines, lemma_join_lines_concat, lemma_join_one, split_lines, split_text,
    LineKind,
};
use crate::model::{
    default_name, entry_line, find_active, first_match, insert_entry, insert_section,
    line_ok,
    lemma_first_match_skip, lemma_insert_entry_skip, lemma_insert_section_skip,
    lemma_load_store_wf, lemma_lookup, lemma_lookup_skip, lemma_parse_fold_concat,
    lemma_parse_fold_one, lemma_remove_absent, lemma_remove_section_at,
    lemma_sections_lines_snoc, lines_ok,
    load_store, lookup_items, parse_fold, parse_push, parse_step, parsed_sections,
    remove_section, render_lines, render_store, section_lines, sections_lines,
    some_header, store_wf, EntryV, ParseState, ProfileV, SectionV, StoreV,
};
use crate::strs::{seq_lt, str_eq, str_lt};

verus! {

/// One `key=value` attribute row of a profile.
pub struct Entry {
    pub key: String,
    pub value: String,
}

impl View for Entry {
    type V = EntryV;

    open spec fn view(&self) -> EntryV {
        EntryV { key: self.key@, value: self.value@ }
    }
}

/// One named section of the file with its attribute rows.
pub struct Section {
    pub name: String,
    pub items: Vec<Entry>,
}

impl View for Section {
    type V = SectionV;

    open spec fn view(&self) -> SectionV {
        SectionV { name: self.name@, items: self.items@.map_values(|e: Entry| e@) }
    }
}

/// A profile as handed to callers: its name, its attributes, and whether
/// it is the one mirrored into the `default` section.
pub struct Profile {
    pub name: String,
    pub default: bool,
    pub items: Vec<Entry>,
}

impl View for Profile {
    type V = ProfileV;

    open spec fn view(&self) -> ProfileV {
        ProfileV {
            name: self.name@,
            default: self.default,
            items: self.items@.map_values(|e: Entry| e@),
        }
    }
}

/// The in-memory model of the whole credentials file: the non-`default`
/// sections sorted by name, and the name of the active profile, if any.
pub struct Credentials {
    sections: Vec<Section>,
    default_profile_name: Option<String>,
}

impl View for Credentials {
    type V = StoreV;

    closed spec fn view(&self) -> StoreV {
        StoreV {
            sections: self.sections@.map_values(|s: Section| s@),
            active: match self.default_profile_name {
                Option::None => Option::None,
                Option::Some(n) => Option::Some(n@),
            },
        }
    }
}

impl Credentials {
    /// The store is well formed; every constructor establishes this and
    /// every operation preserves it.
    pub open spec fn wf(&self) -> bool {
        store_wf(self@)
    }
}

/// The views of a sequence of sections.
pub open spec fn sec_views(secs: Seq<Section>) -> Seq<SectionV> {
    secs.map_values(|s: Section| s@)
}

/// The views of a sequence of entries.
pub open spec fn entry_views(items: Seq<Entry>) -> Seq<EntryV> {
    items.map_values(|e: Entry| e@)
}

fn clone_entry(e: &Entry) -> (r: Entry)
    ensures
        r@ == e@,
{
    Entry { key: e.key.clone(), value: e.value.clone() }
}

fn clone_entries(items: &Vec<Entry>) -> (r: Vec<Entry>)
    ensures
        entry_views(r@) == entry_views(items@),
{
    let mut r: Vec<Entry> = Vec::new();
    let mut i: usize = 0;
    while i < items.len()
        invariant
            0 <= i <= items@.len(),
            r@.len() == i,
            forall|j: int| 0 <= j < i ==> (#[trigger] r@[j])@ == items@[j]@,
        decreases items@.len() - i,
    {
        r.push(clone_entry(&items[i]));
        i += 1;
    }
    proof {
        assert forall|j: int|
            0 <= j < items@.len() implies entry_views(r@)[j] == entry_views(
            items@,
        )[j] by {
            assert(entry_views(r@)[j] == r@[j]@);
            assert(entry_views(items@)[j] == items@[j]@);
        }
        assert(entry_views(r@) =~= entry_views(items@));
    }
    r
}

/// Whether two attribute lists are equal, row for row.
fn items_eq(a: &Vec<Entry>, b: &Vec<Entry>) -> (r: bool)
    ensures
        r == (entry_views(a@) == entry_views(b@)),
{
    if a.len() != b.len() {
        proof {
            assert(entry_views(a@).len() != entry_views(b@).len());
        }
        return false;
    }
    let mut i: usize = 0;
    while i < a.len()
        invariant
            0 <= i <= a@.len(),
            a@.len() == b@.len(),
            forall|j: int| 0 <= j < i ==> entry_views(a@)[j] == entry_views(b@)[j],
        decreases a@.len() - i,
    {
        if !str_eq(a[i].key.as_str(), b[i].key.as_str()) || !str_eq(
            a[i].value.as_str(),
            b[i].value.as_str(),
        ) {
            proof {
                assert(entry_views(a@)[i as int] == a@[i as int]@);
                assert(entry_views(b@)[i as int] == b@[i as int]@);
            }
            return false;
        }
        proof {
            assert(entry_views(a@)[i as int] =~= entry_views(b@)[i as int]);
        }
        i += 1;
    }
    proof {
        assert(entry_views(a@) =~= entry_views(b@));
    }
    true
}

/// Sorted insertion of a row into a section's list; an equal key replaces.
fn insert_entry_vec(items: &mut Vec<Entry>, e: Entry)
    ensures
        entry_views(final(items)@) == insert_entry(entry_views(old(items)@), e@),
{
    let ghost iv = entry_views(items@);
    let mut k: usize = 0;
    while k < items.len() && str_lt(items[k].key.as_str(), e.key.as_str())
        invariant
            0 <= k <= items@.len(),
            *items == *old(items),
            iv == entry_views(items@),
            forall|j: int| 0 <= j < k ==> seq_lt((#[trigger] iv[j]).key, e@.key),
        decreases items@.len() - k,
    {
        proof {
            assert(iv[k as int] == items@[k as int]@);
        }
        k += 1;
    }
    proof {
        lemma_insert_entry_skip(iv, e@, k as int);
    }
    if k < items.len() && str_eq(items[k].key.as_str(), e.key.as_str()) {
        proof {
            assert(iv.skip(k as int)[0] == items@[k as int]@);
            assert(iv.skip(k as int).drop_first() =~= iv.skip(k as int + 1));
        }
        items.set(k, e);
        proof {
            assert(entry_views(items@) =~= iv.take(k as int) + (seq![e@] + iv.skip(
                k as int + 1,
            )));
        }
    } else {
        proof {
            if k < items@.len() {
                assert(iv.skip(k as int)[0] == items@[k as int]@);
            } else {
                assert(iv.skip(k as int) =~= Seq::<EntryV>::empty());
                assert(insert_entry(Seq::<EntryV>::empty(), e@) == seq![e@]);
            }
        }
        items.insert(k, e);
        proof {
            if k < old(items)@.len() {
                assert(entry_views(items@) =~= iv.take(k as int) + (seq![e@] + iv.skip(
                    k as int,
                )));
            } else {
                assert(entry_views(items@) =~= iv.take(k as int) + seq![e@]);
            }
        }
    }
}

/// Sorted insertion of a section into the store; an equal name replaces.
fn insert_section_vec(secs: &mut Vec<Section>, s: Section)
    ensures
        sec_views(final(secs)@) == insert_section(sec_views(old(secs)@), s@),
{
    let ghost sv = sec_views(secs@);
    let mut k: usize = 0;
    while k < secs.len() && str_lt(secs[k].name.as_str(), s.name.as_str())
        invariant
            0 <= k <= secs@.len(),
            *secs == *old(secs),
            sv == sec_views(secs@),
            forall|j: int| 0 <= j < k ==> seq_lt((#[trigger] sv[j]).name, s@.name),
        decreases secs@.len() - k,
    {
        proof {
            assert(sv[k as int] == secs@[k as int]@);
        }
        k += 1;
    }
    proof {
        lemma_insert_section_skip(sv, s@, k as int);
    }
    if k < secs.len() && str_eq(secs[k].name.as_str(), s.name.as_str()) {
        proof {
            assert(sv.skip(k as int)[0] == secs@[k as int]@);
            assert(sv.skip(k as int).drop_first() =~= sv.skip(k as int + 1));
        }
        secs.set(k, s);
        proof {
            assert(sec_views(secs@) =~= sv.take(k as int) + (seq![s@] + sv.skip(
                k as int + 1,
            )));
        }
    } else {
        proof {
            if k < secs@.len() {
                assert(sv.skip(k as int)[0] == secs@[k as int]@);
            } else {
                assert(sv.skip(k as int) =~= Seq::<SectionV>::empty());
                assert(insert_section(Seq::<SectionV>::empty(), s@) == seq![s@]);
            }
        }
        secs.insert(k, s);
        proof {
            if k < old(secs)@.len() {
                assert(sec_views(secs@) =~= sv.take(k as int) + (seq![s@] + sv.skip(
                    k as int,
                )));
            } else {
                assert(sec_views(secs@) =~= sv.take(k as int) + seq![s@]);
            }
        }
    }
}

/// The index of the section under `name`, scanning from the front.
fn find_section(secs: &Vec<Section>, name: &str) -> (r: Option<usize>)
    ensures
        match r {
            Option::Some(i) => {
                &&& i < secs@.len()
                &&& sec_views(secs@)[i as int].name == name@
                &&& forall|j: int|
                    0 <= j < i ==> (#[trigger] sec_views(secs@)[j]).name != name@
                &&& lookup_items(sec_views(secs@), name@) == Option::Some(
                    sec_views(secs@)[i as int].items,
                )
            },
            Option::None => lookup_items(sec_views(secs@), name@) is None,
        },
{
    let ghost sv = sec_views(secs@);
    let mut i: usize = 0;
    while i < secs.len()
        invariant
            0 <= i <= secs@.len(),
            sv == sec_views(secs@),
            forall|j: int| 0 <= j < i ==> (#[trigger] sv[j]).name != name@,
        decreases secs@.len() - i,
    {
        if str_eq(secs[i].name.as_str(), name) {
            proof {
                lemma_lookup_skip(sv, name@, i as int);
                assert(sv.skip(i as int)[0] == secs@[i as int]@);
            }
            return Option::Some(i);
        }
        proof {
            assert(sv[i as int] == secs@[i as int]@);
        }
        i += 1;
    }
    proof {
        lemma_lookup_skip(sv, name@, sv.len() as int);
        assert(sv.skip(sv.len() as int) =~= Seq::<SectionV>::empty());
        assert(lookup_items(Seq::<SectionV>::empty(), name@) is None);
    }
    Option::None
}

/// The name of the first profile whose rows equal the `default` rows,
/// scanning the sections as parsed (`default` still among them).
fn resolve_active(secs: &Vec<Section>) -> (r: Option<String>)
    ensures
        match r {
            Option::Some(n) => find_active(sec_views(secs@)) == Option::Some(n@),
            Option::None => find_active(sec_views(secs@)) is None,
        },
{
    let ghost sv = sec_views(secs@);
    let di = match find_section(secs, "default") {
        Option::Some(di) => di,
        Option::None => {
            return Option::None;
        },
    };
    let ghost d = sv[di as int].items;
    let mut i: usize = 0;
    while i < secs.len()
        invariant
            0 <= i <= secs@.len(),
            sv == sec_views(secs@),
            di < secs@.len(),
            lookup_items(sv, default_name()) == Option::Some(d),
            d == sv[di as int].items,
            forall|j: int|
                0 <= j < i ==> ((#[trigger] sv[j]).name == default_name() || sv[j].items
                    != d),
        decreases secs@.len() - i,
    {
        proof {
            assert(sv[i as int] == secs@[i as int]@);
            assert(sv[di as int] == secs@[di as int]@);
        }
        if !str_eq(secs[i].name.as_str(), "default") && items_eq(
            &secs[i].items,
            &secs[di].items,
        ) {
            proof {
                lemma_first_match_skip(sv, d, i as int);
                assert(sv.skip(i as int)[0] == secs@[i as int]@);
            }
            return Option::Some(secs[i].name.clone());
        }
        i += 1;
    }
    proof {
        lemma_first_match_skip(sv, d, sv.len() as int);
        assert(sv.skip(sv.len() as int) =~= Seq::<SectionV>::empty());
        assert(first_match(Seq::<SectionV>::empty(), d) is None);
    }
    Option::None
}

impl Credentials {
    /// Parses the text of a credentials file into a store. The text is
    /// rejected as broken when it has no section header at all, or when a
    /// non-blank line is neither a header nor a `key=value` row.
    pub fn load_credentials(contents: &str) -> (r: Result<Credentials, CTXError>)
        ensures
            match r {
                Result::Ok(c) => c.wf() && load_store(contents@) == Option::Some(c@),
                Result::Err(e) => load_store(contents@) is None && (e
                    is CredentialsIsBroken),
            },
    {
        let lines = split_text(contents);
        let ghost ls = lines@.map_values(|s: String| s@);
        let ghost init = ParseState { secs: Seq::empty(), cur: Option::None };
        let mut secs: Vec<Section> = Vec::new();
        let mut cur_name: Option<String> = Option::None;
        let mut cur_items: Vec<Entry> = Vec::new();
        let mut saw_header = false;
        let mut i: usize = 0;
        proof {
            assert(ls.take(0) =~= Seq::<Seq<char>>::empty());
            assert(parse_fold(Seq::<Seq<char>>::empty(), init) == init);
            assert(init =~~= (ParseState {
                secs: sec_views(secs@),
                cur: Option::None,
            }));
        }
        while i < lines.len()
            invariant
                0 <= i <= lines@.len(),
                ls == lines@.map_values(|s: String| s@),
                split_lines(contents@) == ls,
                parse_fold(ls.take(i as int), init) == (ParseState {
                    secs: sec_views(secs@),
                    cur: match cur_name {
                        Option::None => Option::None,
                        Option::Some(n) => Option::Some(
                            SectionV { name: n@, items: entry_views(cur_items@) },
                        ),
                    },
                }),
                saw_header == some_header(ls.take(i as int)),
                lines_ok(ls.take(i as int)),
            decreases lines@.len() - i,
        {
            let ghost st_before = parse_fold(ls.take(i as int), init);
            let ghost l = ls[i as int];
            proof {
                assert(lines@[i as int]@ == l);
                assert(ls.take(i as int + 1) =~= ls.take(i as int) + seq![l]);
                lemma_parse_fold_concat(ls.take(i as int), seq![l], init);
                lemma_parse_fold_one(l, st_before);
                assert(parse_fold(ls.take(i as int + 1), init) == parse_step(
                    st_before,
                    l,
                ));
            }
            match classify_line(lines[i].as_str()) {
                LineKind::Header(name) => {
                    let prev_name = cur_name;
                    let prev_items = cur_items;
                    cur_name = Option::Some(name);
                    cur_items = Vec::new();
                    match prev_name {
                        Option::None => {},
                        Option::Some(n) => {
                            insert_section_vec(
                                &mut secs,
                                Section { name: n, items: prev_items },
                            );
                        },
                    }
                    saw_header = true;
                    proof {
                        assert(entry_views(cur_items@) =~= Seq::<EntryV>::empty());
                        assert(parse_step(st_before, l) =~~= (ParseState {
                            secs: sec_views(secs@),
                            cur: Option::Some(
                                SectionV {
                                    name: cur_name->0@,
                                    items: entry_views(cur_items@),
                                },
                            ),
                        }));
                        assert(is_header_line(ls.take(i as int + 1)[i as int]));
                        assert(some_header(ls.take(i as int + 1)));
                        assert forall|j: int|
                            0 <= j < i + 1 implies line_ok(
                            #[trigger] ls.take(i as int + 1)[j],
                        ) by {
                            if j < i {
                                assert(ls.take(i as int + 1)[j] == ls.take(i as int)[j]);
                            }
                        }
                    }
                },
                LineKind::Blank => {
                    proof {
                        assert(parse_step(st_before, l) == st_before);
                        assert forall|j: int|
                            0 <= j < i + 1 implies line_ok(
                            #[trigger] ls.take(i as int + 1)[j],
                        ) by {
                            if j < i {
                                assert(ls.take(i as int + 1)[j] == ls.take(i as int)[j]);
                            }
                        }
                        if !saw_header {
                            assert forall|j: int|
                                0 <= j < i + 1 implies !is_header_line(
                                #[trigger] ls.take(i as int + 1)[j],
                            ) by {
                                if j < i {
                                    assert(ls.take(i as int + 1)[j] == ls.take(
                                        i as int,
                                    )[j]);
                                    assert(!is_header_line(ls.take(i as int)[j]));
                                }
                            }
                        } else {
                            let k = choose|k: int|
                                0 <= k < i && is_header_line(
                                    #[trigger] ls.take(i as int)[k],
                                );
                            assert(is_header_line(ls.take(i as int + 1)[k]));
                        }
                    }
                },
                LineKind::Attr(k, v) => {
                    if cur_name.is_some() {
                        insert_entry_vec(&mut cur_items, Entry { key: k, value: v });
                    }
                    proof {
                        assert((Entry { key: k, value: v })@ =~= (EntryV {
                            key: attr_key(l),
                            value: attr_value(l),
                        }));
                        assert(parse_step(st_before, l) =~~= (ParseState {
                            secs: sec_views(secs@),
                            cur: match cur_name {
                                Option::None => Option::None,
                                Option::Some(n) => Option::Some(
                                    SectionV {
                                        name: n@,
                                        items: entry_views(cur_items@),
                                    },
                                ),
                            },
                        }));
                        assert forall|j: int|
                            0 <= j < i + 1 implies line_ok(
                            #[trigger] ls.take(i as int + 1)[j],
                        ) by {
                            if j < i {
                                assert(ls.take(i as int + 1)[j] == ls.take(i as int)[j]);
                            }
                        }
                        if !saw_header {
                            assert forall|j: int|
                                0 <= j < i + 1 implies !is_header_line(
                                #[trigger] ls.take(i as int + 1)[j],
                            ) by {
                                if j < i {
                                    assert(ls.take(i as int + 1)[j] == ls.take(
                                        i as int,
                                    )[j]);
                                    assert(!is_header_line(ls.take(i as int)[j]));
                                }
                            }
                        } else {
                            let w = choose|w: int|
                                0 <= w < i && is_header_line(
                                    #[trigger] ls.take(i as int)[w],
                                );
                            assert(is_header_line(ls.take(i as int + 1)[w]));
                        }
                    }
                },
                LineKind::Bad => {
                    proof {
                        assert(!line_ok(ls[i as int]));
                        assert(!lines_ok(ls));
                        assert(load_store(contents@) is None);
                    }
                    return Result::Err(CTXError::CredentialsIsBroken);
                },
            }
            i += 1;
        }
        proof {
            assert(ls.take(ls.len() as int) =~= ls);
        }
        if !saw_header {
            proof {
                assert(load_store(contents@) is None);
            }
            return Result::Err(CTXError::CredentialsIsBroken);
        }
        match cur_name {
            Option::None => {},
            Option::Some(n) => {
                insert_section_vec(&mut secs, Section { name: n, items: cur_items });
            },
        }
        proof {
            assert(sec_views(secs@) == parsed_sections(ls));
        }
        let ghost allsecs = sec_views(secs@);
        let active = resolve_active(&secs);
        match find_section(&secs, "default") {
            Option::Some(di) => {
                proof {
                    lemma_remove_section_at(allsecs, default_name(), di as int);
                }
                let ghost before = secs@;
                secs.remove(di);
                proof {
                    assert forall|j: int|
                        0 <= j < secs@.len() implies sec_views(secs@)[j] == sec_views(
                        before,
                    ).remove(di as int)[j] by {
                        assert(sec_views(secs@)[j] == secs@[j]@);
                        if j < di {
                            assert(secs@[j] == before[j]);
                            assert(sec_views(before)[j] == before[j]@);
                        } else {
                            assert(secs@[j] == before[j + 1]);
                            assert(sec_views(before)[j + 1] == before[j + 1]@);
                        }
                    }
                    assert(sec_views(secs@) =~= sec_views(before).remove(di as int));
                }
            },
            Option::None => {
                proof {
                    lemma_lookup(allsecs, default_name());
                    lemma_remove_absent(allsecs, default_name());
                }
            },
        }
        let c = Credentials { sections: secs, default_profile_name: active };
        proof {
            assert(load_store(contents@) is Some);
            assert(c@ =~~= load_store(contents@)->0);
            lemma_load_store_wf(contents@);
        }
        Result::Ok(c)
    }
}

/// Appends one rendered section to the output: `[name]`, then each
/// `key=value` row.
fn append_section(out: &mut String, name: &str, items: &Vec<Entry>)
    ensures
        final(out)@ == old(out)@ + join_lines(
            section_lines(SectionV { name: name@, items: entry_views(items@) }),
        ),
{
    let ghost base = out@;
    let ghost s = SectionV { name: name@, items: entry_views(items@) };
    let ghost h = header_line_of(name@);
    out.append("[");
    out.append(name);
    out.append("]\n");
    proof {
        reveal_strlit("[");
        reveal_strlit("]\n");
        lemma_join_one(h);
        assert(out@ =~= base + join_lines(seq![h]));
    }
    let mut j: usize = 0;
    while j < items.len()
        invariant
            0 <= j <= items@.len(),
            h == header_line_of(name@),
            base == old(out)@,
            out@ == base + join_lines(
                seq![h] + entry_views(items@.take(j as int)).map_values(
                    |e: EntryV| entry_line(e),
                ),
            ),
        decreases items@.len() - j,
    {
        let ghost pre = seq![h] + entry_views(items@.take(j as int)).map_values(
            |e: EntryV| entry_line(e),
        );
        out.append(items[j].key.as_str());
        out.append("=");
        out.append(items[j].value.as_str());
        out.append("\n");
        proof {
            reveal_strlit("=");
            reveal_strlit("\n");
            let e = items@[j as int]@;
            let line = entry_line(e);
            assert(line =~= e.key + seq!['='] + e.value);
            lemma_join_lines_concat(pre, seq![line]);
            lemma_join_one(line);
            assert(out@ =~= base + (join_lines(pre) + (line + seq!['\n'])));
            let longer = entry_views(items@.take(j as int + 1)).map_values(
                |x: EntryV| entry_line(x),
            );
            let shorter = entry_views(items@.take(j as int)).map_values(
                |x: EntryV| entry_line(x),
            );
            assert forall|m: int| 0 <= m < j + 1 implies #[trigger] longer[m] == (
            shorter + seq![line])[m] by {
                assert(entry_views(items@.take(j as int + 1))[m] == items@.take(
                    j as int + 1,
                )[m]@);
                if m < j {
                    assert(entry_views(items@.take(j as int))[m] == items@.take(
                        j as int,
                    )[m]@);
                }
            }
            assert(seq![h] + longer =~= pre + seq![line]);
            assert(out@ == base + join_lines(
                seq![h] + entry_views(items@.take(j as int + 1)).map_values(
                    |x: EntryV| entry_line(x),
                ),
            ));
        }
        j += 1;
    }
    proof {
        let pre = seq![h] + entry_views(items@.take(items@.len() as int)).map_values(
            |e: EntryV| entry_line(e),
        );
        assert(items@.take(items@.len() as int) =~= items@);
        assert(pre =~= section_lines(s));
        assert(out@ == base + join_lines(section_lines(s)));
    }
}

impl Credentials {
    /// Serializes the store deterministically: every profile's section in
    /// name order with its rows in key order, then, when a profile is
    /// active, a final `default` section carrying a copy of its rows.
    pub fn dump_credentials(&self) -> (r: String)
        requires
            self.wf(),
        ensures
            r@ == render_store(self@),
    {
        let mut out = String::new();
        let mut i: usize = 0;
        proof {
            assert(sec_views(self.sections@.take(0)) =~= Seq::<SectionV>::empty());
            assert(sections_lines(Seq::<SectionV>::empty()) =~= Seq::<Seq<char>>::empty());
            assert(join_lines(Seq::<Seq<char>>::empty()) =~= Seq::<char>::empty());
            assert(out@ =~= join_lines(sections_lines(sec_views(self.sections@.take(0)))));
        }
        while i < self.sections.len()
            invariant
                0 <= i <= self.sections@.len(),
                out@ == join_lines(sections_lines(sec_views(self.sections@.take(i as int)))),
            decreases self.sections@.len() - i,
        {
            if i > 0 {
                out.append("\n");
            }
            append_section(
                &mut out,
                self.sections[i].name.as_str(),
                &self.sections[i].items,
            );
            proof {
                let sv_i = sec_views(self.sections@.take(i as int));
                let s = self.sections@[i as int]@;
                assert((SectionV {
                    name: self.sections@[i as int].name@,
                    items: entry_views(self.sections@[i as int].items@),
                }) =~= s);
                assert forall|m: int|
                    0 <= m < i + 1 implies #[trigger] sec_views(
                    self.sections@.take(i as int + 1),
                )[m] == sv_i.push(s)[m] by {
                    assert(sec_views(self.sections@.take(i as int + 1))[m]
                        == self.sections@.take(i as int + 1)[m]@);
                    if m < i {
                        assert(sv_i[m] == self.sections@.take(i as int)[m]@);
                    }
                }
                assert(sec_views(self.sections@.take(i as int + 1)) =~= sv_i.push(s));
                lemma_sections_lines_snoc(sv_i, s);
                let blank = Seq::<char>::empty();
                if i > 0 {
                    reveal_strlit("\n");
                    lemma_join_one(blank);
                    assert("\n"@ =~= join_lines(seq![blank]));
                    lemma_join_lines_concat(seq![blank], section_lines(s));
                    lemma_join_lines_concat(
                        sections_lines(sv_i),
                        seq![blank] + section_lines(s),
                    );
                } else {
                    assert(sv_i.len() == 0);
                    assert(join_lines(sections_lines(sv_i)) =~= Seq::<char>::empty());
                }
            }
            i += 1;
        }
        proof {
            assert(self.sections@.take(self.sections@.len() as int) =~= self.sections@);
        }
        match &self.default_profile_name {
            Option::None => {
                proof {
                    assert(render_lines(self@) =~= sections_lines(sec_views(self.sections@)));
                }
            },
            Option::Some(n) => {
                match find_section(&self.sections, n.as_str()) {
                    Option::Some(di) => {
                        out.append("\n");
                        append_section(&mut out, "default", &self.sections[di].items);
                        proof {
                            let sv = sec_views(self.sections@);
                            let d = sv[di as int].items;
                            let dsec = SectionV { name: default_name(), items: d };
                            assert(sv[di as int] == self.sections@[di as int]@);
                            assert((SectionV {
                                name: "default"@,
                                items: entry_views(self.sections@[di as int].items@),
                            }) =~= dsec);
                            assert(lookup_items(sv, n@) == Option::Some(d));
                            let blank = Seq::<char>::empty();
                            assert(render_lines(self@) == sections_lines(sv) + (seq![
                                blank,
                            ] + section_lines(dsec)));
                            reveal_strlit("\n");
                            lemma_join_one(blank);
                            assert("\n"@ =~= join_lines(seq![blank]));
                            lemma_join_lines_concat(seq![blank], section_lines(dsec));
                            lemma_join_lines_concat(
                                sections_lines(sv),
                                seq![blank] + section_lines(dsec),
                            );
                        }
                    },
                    Option::None => {
                        // unreachable: a well-formed store's active name
                        // is always one of its sections
                        proof {
                            assert(false);
                        }
                    },
                }
            },
        }
        out
    }
}

impl Credentials {
    /// Looks a profile up by name; fails with `NoSuchProfile` exactly
    /// when the store has no section under that name.
    pub fn get_profile(&self, name: &str) -> (r: Result<Profile, CTXError>)
        requires
            self.wf(),
        ensures
            match r {
                Result::Ok(p) => {
                    &&& lookup_items(self@.sections, name@) == Option::Some(p@.items)
                    &&& p@.name == name@
                    &&& (p@.default <==> self@.active == Option::Some(name@))
                },
                Result::Err(e) => {
                    &&& lookup_items(self@.sections, name@) is None
                    &&& (e matches CTXError::NoSuchProfile { profile } && profile@
                        == name@)
                },
            },
    {
        match find_section(&self.sections, name) {
            Option::Some(i) => {
                let active = match &self.default_profile_name {
                    Option::Some(d) => str_eq(d.as_str(), name),
                    Option::None => false,
                };
                let p = Profile {
                    name: String::from_str(name),
                    default: active,
                    items: clone_entries(&self.sections[i].items),
                };
                proof {
                    assert(sec_views(self.sections@)[i as int]
                        == self.sections@[i as int]@);
                }
                Result::Ok(p)
            },
            Option::None => Result::Err(
                CTXError::NoSuchProfile { profile: String::from_str(name) },
            ),
        }
    }

    /// Hands out the active profile; fails with `NoActiveContext` exactly
    /// when no profile is mirrored into the `default` section.
    pub fn get_default_profile(&self) -> (r: Result<Profile, CTXError>)
        requires
            self.wf(),
        ensures
            match r {
                Result::Ok(p) => {
                    &&& self@.active == Option::Some(p@.name)
                    &&& lookup_items(self@.sections, p@.name) == Option::Some(p@.items)
                    &&& p@.default
                },
                Result::Err(e) => self@.active is None && (e is NoActiveContext),
            },
    {
        match &self.default_profile_name {
            Option::None => Result::Err(CTXError::NoActiveContext),
            Option::Some(n) => {
                match self.get_profile(n.as_str()) {
                    Result::Ok(p) => Result::Ok(p),
                    Result::Err(_) => {
                        // unreachable: a well-formed store's active name is
                        // always one of its sections
                        proof {
                            assert(false);
                        }
                        Result::Err(CTXError::NoActiveContext)
                    },
                }
            },
        }
    }

    /// Marks the named profile active, in memory only; fails with
    /// `NoSuchProfile`, leaving the store unchanged, exactly when no
    /// section carries the name.
    pub fn set_default_profile(&mut self, name: &str) -> (r: Result<Profile, CTXError>)
        requires
            old(self).wf(),
        ensures
            final(self).wf(),
            match r {
                Result::Ok(p) => {
                    &&& final(self)@ == (StoreV {
                        sections: old(self)@.sections,
                        active: Option::Some(name@),
                    })
                    &&& p@.name == name@
                    &&& p@.default
                    &&& lookup_items(old(self)@.sections, name@) == Option::Some(
                        p@.items,
                    )
                },
                Result::Err(e) => {
                    &&& *final(self) == *old(self)
                    &&& lookup_items(old(self)@.sections, name@) is None
                    &&& (e matches CTXError::NoSuchProfile { profile } && profile@
                        == name@)
                },
            },
    {
        match find_section(&self.sections, name) {
            Option::None => Result::Err(
                CTXError::NoSuchProfile { profile: String::from_str(name) },
            ),
            Option::Some(i) => {
                let items = clone_entries(&self.sections[i].items);
                self.default_profile_name = Option::Some(String::from_str(name));
                proof {
                    assert(sec_views(self.sections@)[i as int]
                        == self.sections@[i as int]@);
                    assert(self@ =~~= (StoreV {
                        sections: old(self)@.sections,
                        active: Option::Some(name@),
                    }));
                }
                Result::Ok(
                    Profile { name: String::from_str(name), default: true, items },
                )
            },
        }
    }

    /// Every profile in name order, each flagged active exactly when it
    /// is the one mirrored into `default`.
    pub fn list_profiles(&self) -> (r: Vec<Profile>)
        requires
            self.wf(),
        ensures
            r@.len() == self@.sections.len(),
            forall|i: int|
                0 <= i < r@.len() ==> {
                    &&& (#[trigger] r@[i])@.name == self@.sections[i].name
                    &&& r@[i]@.items == self@.sections[i].items
                    &&& (r@[i]@.default <==> self@.active == Option::Some(
                        self@.sections[i].name,
                    ))
                },
    {
        let mut r: Vec<Profile> = Vec::new();
        let mut i: usize = 0;
        while i < self.sections.len()
            invariant
                0 <= i <= self.sections@.len(),
                r@.len() == i,
                forall|j: int|
                    0 <= j < i ==> {
                        &&& (#[trigger] r@[j])@.name == sec_views(self.sections@)[j].name
                        &&& r@[j]@.items == sec_views(self.sections@)[j].items
                        &&& (r@[j]@.default <==> (match self.default_profile_name {
                            Option::None => Option::<Seq<char>>::None,
                            Option::Some(n) => Option::Some(n@),
                        }) == Option::Some(sec_views(self.sections@)[j].name))
                    },
            decreases self.sections@.len() - i,
        {
            let active = match &self.default_profile_name {
                Option::Some(d) => str_eq(d.as_str(), self.sections[i].name.as_str()),
                Option::None => false,
            };
            let p = Profile {
                name: self.sections[i].name.clone(),
                default: active,
                items: clone_entries(&self.sections[i].items),
            };
            proof {
                assert(sec_views(self.sections@)[i as int]
                    == self.sections@[i as int]@);
            }
            r.push(p);
            i += 1;
        }
        r
    }
}

} // verus!
