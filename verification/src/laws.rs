//! The laws of the store as a whole: serializing and reparsing a
//! well-formed store reproduces it, with the active profile re-resolved by
//! structural match against the `default` section, and the resolution of
//! the active profile characterized exactly.

use vstd::prelude::*;

use crate::lines::{cr_clean, is_header_line, lemma_split_of_join, no_newline, split_lines};
use crate::model::{
    default_name, find_active, first_match, insert_section, lemma_default_name_valid,
    lemma_first_match_insert_default, lemma_first_match_none, lemma_first_match_unique,
    lemma_lookup, lemma_lookup_insert, lemma_parse_fold_concat, lemma_parse_section,
    lemma_parse_sections, lemma_remove_absent, lemma_remove_insert,
    lemma_section_lines_facts, lemma_sections_lines_facts, line_ok, lines_ok,
    load_store, lookup_items, parse_fold, parse_push, parsed_sections, remove_section,
    render_lines, render_store, section_cr_clean, section_lines, section_wf,
    sections_lines, some_header, store_cr_clean, store_wf, ParseState, SectionV,
    StoreV,
};

verus! {

/// A text with no section header at all is always rejected as broken.
pub proof fn lemma_no_header_rejected(content: Seq<char>)
    requires
        !some_header(split_lines(content)),
    ensures
        load_store(content) is None,
{
}

/// Reparsing a rendered store reproduces its profiles exactly, and
/// re-resolves the active profile by structural match: the name found is
/// the first one, in sorted order, whose rows equal the rows that were
/// mirrored into `default`. A store with no sections renders to empty
/// text, which the parser rejects, so one section is required.
pub proof fn lemma_load_of_render(st: StoreV)
    requires
        store_wf(st),
        store_cr_clean(st),
        st.sections.len() > 0,
    ensures
        match st.active {
            Option::None => load_store(render_store(st)) == Option::Some(
                (StoreV { sections: st.sections, active: Option::None }),
            ),
            Option::Some(a) => load_store(render_store(st)) == Option::Some(
                (StoreV {
                    sections: st.sections,
                    active: first_match(st.sections, lookup_items(st.sections, a)->0),
                }),
            ),
        },
{
    let secs = st.sections;
    let rl = render_lines(st);
    let content = render_store(st);
    let init = ParseState { secs: Seq::empty(), cur: Option::None };
    lemma_sections_lines_facts(secs);
    match st.active {
        Option::None => {
            assert(rl =~= sections_lines(secs));
            assert forall|i: int|
                0 <= i < rl.len() implies no_newline(#[trigger] rl[i]) && cr_clean(
                rl[i],
            ) by {}
            lemma_split_of_join(rl);
            assert(split_lines(content) == rl);
            assert(lines_ok(rl));
            assert(is_header_line(rl[0]));
            assert(some_header(rl));
            lemma_parse_sections(secs, init);
            assert(parse_push(init) + secs =~= secs);
            let secs2 = parsed_sections(rl);
            assert(secs2 == secs);
            lemma_lookup(secs, default_name());
            match lookup_items(secs, default_name()) {
                Option::None => {},
                Option::Some(_) => {
                    let k = choose|i: int|
                        0 <= i < secs.len() && (#[trigger] secs[i]).name == default_name();
                    assert(false);
                },
            }
            assert(find_active(secs2) is None);
            lemma_remove_absent(secs, default_name());
            assert(load_store(content) == Option::Some(
                (StoreV { sections: secs, active: Option::None }),
            ));
        },
        Option::Some(a) => {
            let d = lookup_items(secs, a)->0;
            let dsec = SectionV { name: default_name(), items: d };
            lemma_default_name_valid();
            lemma_lookup(secs, a);
            assert(section_wf(dsec)) by {
                let k = choose|i: int|
                    0 <= i < secs.len() && (#[trigger] secs[i]).name == a && secs[i].items
                        == d;
                assert(section_wf(secs[k]));
            }
            assert(section_cr_clean(dsec)) by {
                let k = choose|i: int|
                    0 <= i < secs.len() && (#[trigger] secs[i]).name == a && secs[i].items
                        == d;
                assert(section_cr_clean(secs[k]));
            }
            lemma_section_lines_facts(dsec);
            let suffix = seq![Seq::<char>::empty()] + section_lines(dsec);
            assert(rl == sections_lines(secs) + suffix);
            assert forall|i: int|
                0 <= i < rl.len() implies no_newline(#[trigger] rl[i]) && line_ok(
                rl[i],
            ) && cr_clean(rl[i]) by {
                if i < sections_lines(secs).len() {
                    assert(rl[i] == sections_lines(secs)[i]);
                } else if i == sections_lines(secs).len() {
                    assert(rl[i] == suffix[0]);
                    assert(suffix[0] =~= Seq::<char>::empty());
                } else {
                    assert(rl[i] == section_lines(dsec)[i - sections_lines(secs).len()
                        - 1]);
                }
            }
            lemma_split_of_join(rl);
            assert(split_lines(content) == rl);
            assert(lines_ok(rl));
            assert(rl[0] == sections_lines(secs)[0]);
            assert(is_header_line(rl[0]));
            assert(some_header(rl));
            lemma_parse_fold_concat(sections_lines(secs), suffix, init);
            lemma_parse_sections(secs, init);
            let st1 = parse_fold(sections_lines(secs), init);
            assert(parse_push(st1) == parse_push(init) + secs);
            assert(parse_push(init) + secs =~= secs);
            let blank = Seq::<char>::empty();
            assert(suffix =~= seq![blank] + section_lines(dsec));
            lemma_parse_fold_concat(seq![blank], section_lines(dsec), st1);
            crate::model::lemma_parse_fold_one(blank, st1);
            assert(!is_header_line(blank));
            assert(crate::model::parse_step(st1, blank) == st1);
            lemma_parse_section(dsec, st1);
            let secs2 = parsed_sections(rl);
            assert(secs2 == insert_section(secs, dsec));
            lemma_lookup_insert(secs, dsec, default_name());
            assert(lookup_items(secs2, default_name()) == Option::Some(d));
            lemma_first_match_insert_default(secs, dsec, d);
            assert(find_active(secs2) == first_match(secs, d));
            lemma_remove_insert(secs, dsec);
            assert(remove_section(secs2, default_name()) == secs);
            assert(load_store(content) == Option::Some(
                (StoreV { sections: secs, active: first_match(secs, d) }),
            ));
        },
    }
}

/// Round trip: reparsing a rendered store gives back the very store, as
/// long as no other profile's rows coincide with the active profile's
/// rows (with such a duplicate the reparse resolves the first matching
/// name instead, which is all a structural-match encoding can recover)
/// and no value ends with a carriage return (such a value would lose its
/// `\r` to CRLF stripping on the next read).
pub proof fn lemma_round_trip(st: StoreV)
    requires
        store_wf(st),
        store_cr_clean(st),
        st.sections.len() > 0,
        match st.active {
            Option::None => true,
            Option::Some(a) => forall|i: int|
                0 <= i < st.sections.len() && (#[trigger] st.sections[i]).items
                    == lookup_items(st.sections, a)->0 ==> st.sections[i].name == a,
        },
    ensures
        load_store(render_store(st)) == Option::Some(st),
{
    lemma_load_of_render(st);
    match st.active {
        Option::None => {
            assert(StoreV { sections: st.sections, active: Option::None } =~= st);
        },
        Option::Some(a) => {
            let d = lookup_items(st.sections, a)->0;
            lemma_lookup(st.sections, a);
            let k = choose|i: int|
                0 <= i < st.sections.len() && (#[trigger] st.sections[i]).name == a
                    && st.sections[i].items == d;
            assert(st.sections[k].name != default_name());
            lemma_first_match_unique(st.sections, a, d);
            assert(StoreV { sections: st.sections, active: first_match(st.sections, d) }
                =~= st);
        },
    }
}

/// The active profile resolves to nothing exactly when the parsed file
/// has no `default` section, or no other section's rows equal the
/// `default` section's rows.
pub proof fn lemma_active_resolution(content: Seq<char>)
    requires
        load_store(content) is Some,
    ensures
        ({
            let secs = parsed_sections(split_lines(content));
            (load_store(content)->0.active is None) <==> match lookup_items(
                secs,
                default_name(),
            ) {
                Option::None => true,
                Option::Some(d) => forall|i: int|
                    0 <= i < secs.len() ==> ((#[trigger] secs[i]).name == default_name()
                        || secs[i].items != d),
            }
        }),
{
    let secs = parsed_sections(split_lines(content));
    match lookup_items(secs, default_name()) {
        Option::None => {},
        Option::Some(d) => {
            match first_match(secs, d) {
                Option::None => {
                    lemma_first_match_none(secs, d);
                },
                Option::Some(m) => {
                    lemma_lookup(secs, default_name());
                    let k = choose|i: int|
                        0 <= i < secs.len() && (#[trigger] secs[i]).name == default_name()
                            && secs[i].items == d;
                    crate::model::lemma_first_match_elem(secs, d);
                    let w = choose|i: int|
                        0 <= i < secs.len() && (#[trigger] secs[i]).name == first_match(
                            secs,
                            d,
                        )->0 && secs[i].items == d;
                    assert(secs[w].name != default_name() && secs[w].items == d);
                },
            }
        },
    }
}

} // verus!
