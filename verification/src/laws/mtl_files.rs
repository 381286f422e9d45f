//! Material libraries of Wavefront meshes: what each line of a file says.

use super::obj_files::number_word;
use super::text_rules::{
    a_word_is_its_only_word, blanks_are_space, characters_are_found_where_they_first_stand, solid,
    three_words, tight, tight_text_is_left_alone, two_words, words_are_found_again,
    words_end_at_space,
};
use crate::mtl::{
    closed_off, color_in, first_number, key_of, map_path, mtl_state, numbers_in, rest_of,
    strength_in, with_key, with_mtl_line, without_comment, MtlModel, MtlState,
};
use crate::text::{is_float, is_space, replaced, words};
use vstd::prelude::*;

verus! {

/// A line: a key, a blank, and what follows.
pub open spec fn line_of(key: Seq<char>, rest: Seq<char>) -> Seq<char> {
    key + (seq![' '] + rest)
}

/// Whether a key and what follows it hold no comment.
pub open spec fn plain_line(key: Seq<char>, rest: Seq<char>) -> bool {
    solid(key) && tight(rest) && !key.contains('#') && !rest.contains('#')
}

proof fn lemma_line(key: Seq<char>, rest: Seq<char>)
    requires
        plain_line(key, rest),
    ensures
        without_comment(line_of(key, rest)) == line_of(key, rest),
        key_of(line_of(key, rest)) == key,
        rest_of(line_of(key, rest)) == rest,
        line_of(key, rest).len() > 0,
{
    blanks_are_space();
    let l = line_of(key, rest);
    let none = Seq::<char>::empty();
    assert(!l.contains('#')) by {
        if l.contains('#') {
            let i = choose|i: int| 0 <= i < l.len() && l[i] == '#';
            if i < key.len() {
                assert(key[i] == '#');
                assert(key.contains('#'));
            } else if i > key.len() {
                assert(rest[i - key.len() - 1] == '#');
                assert(rest.contains('#'));
            }
        }
    }
    characters_are_found_where_they_first_stand(l, '#', none);
    assert(l + none =~= l);
    assert(l.take(l.len() as int) =~= l);
    assert(!is_space(key[0]));
    assert(l[0] == key[0] && l.last() == rest.last());
    tight_text_is_left_alone(l);
    words_end_at_space(key, seq![' '] + rest);
    assert(l.take(key.len() as int) =~= key);
    assert(l.skip(key.len() as int + 1) =~= rest);
    tight_text_is_left_alone(rest);
}

/// Where a material is being read, each line changes that material, and nothing else.
pub proof fn lines_change_the_material_at_hand(
    s: MtlState,
    m: MtlModel,
    key: Seq<char>,
    rest: Seq<char>,
)
    requires
        plain_line(key, rest),
        key != "newmtl"@,
        s.current == Some(m),
        !s.skipping,
    ensures
        with_mtl_line(s, line_of(key, rest)) == (MtlState {
            current: Some(with_key(m, key, rest)),
            ..s
        }),
{
    lemma_line(key, rest);
}

/// What stands behind a `#` says nothing.
pub proof fn comments_say_nothing(s: MtlState, key: Seq<char>, rest: Seq<char>, comment: Seq<char>)
    requires
        plain_line(key, rest),
    ensures
        with_mtl_line(s, line_of(key, rest) + (seq!['#'] + comment)) == with_mtl_line(
            s,
            line_of(key, rest),
        ),
        with_mtl_line(s, seq!['#'] + comment) == s,
        with_mtl_line(s, Seq::empty()) == s,
{
    lemma_line(key, rest);
    let l = line_of(key, rest);
    assert(!l.contains('#')) by {
        if l.contains('#') {
            let i = choose|i: int| 0 <= i < l.len() && l[i] == '#';
            if i < key.len() {
                assert(key[i] == '#');
            } else if i > key.len() {
                assert(rest[i - key.len() - 1] == '#');
            }
        }
    }
    let c = l + (seq!['#'] + comment);
    characters_are_found_where_they_first_stand(l, '#', seq!['#'] + comment);
    assert(c.take(l.len() as int) =~= l);
    assert(l.take(l.len() as int) =~= l);
    let none = Seq::<char>::empty();
    characters_are_found_where_they_first_stand(l, '#', none);
    assert(l + none =~= l);
    let d = seq!['#'] + comment;
    characters_are_found_where_they_first_stand(none, '#', d);
    assert(none + d =~= d);
    assert(d.take(0) =~= none);
    super::text_rules::trimming_takes_only_space(none, none, none);
    assert(none + none + none =~= none);
    characters_are_found_where_they_first_stand(none, '#', none);
    assert(none.take(0) =~= none);
}

/// How the keys are spelled, as far as it tells them apart.
proof fn lemma_keys()
    ensures
        "Kd"@ != "Ks"@ && "Kd"@ != "Ke"@ && "Kd"@ != "Ns"@ && "Kd"@ != "d"@ && "Kd"@ != "Tr"@,
        "Ks"@ != "Ke"@ && "Ks"@ != "Ns"@ && "Ks"@ != "d"@ && "Ks"@ != "Tr"@,
        "Ke"@ != "Ns"@ && "Ke"@ != "d"@ && "Ke"@ != "Tr"@,
        "Ns"@ != "d"@ && "Ns"@ != "Tr"@ && "d"@ != "Tr"@,
        forall|k: Seq<char>|
            k == "map_Kd"@ || k == "map_d"@ || k == "map_bump"@ || k == "bump"@ || k == "norm"@ || k
                == "map_Ka"@ ==> #[trigger] k.len() > 2,
        "Kd"@.len() == 2 && "Ks"@.len() == 2 && "Ke"@.len() == 2 && "Ns"@.len() == 2 && "d"@.len()
            == 1 && "Tr"@.len() == 2,
        "map_Kd"@ != "map_d"@ && "map_Kd"@ != "map_bump"@ && "map_Kd"@ != "bump"@ && "map_Kd"@
            != "norm"@ && "map_Kd"@ != "map_Ka"@,
        "map_d"@ != "map_bump"@ && "map_d"@ != "bump"@ && "map_d"@ != "norm"@ && "map_d"@
            != "map_Ka"@,
        "map_bump"@ != "bump"@ && "map_bump"@ != "norm"@ && "map_bump"@ != "map_Ka"@,
        "bump"@ != "norm"@ && "bump"@ != "map_Ka"@ && "norm"@ != "map_Ka"@,
{
    reveal_strlit("Kd");
    reveal_strlit("Ks");
    reveal_strlit("Ke");
    reveal_strlit("Ns");
    reveal_strlit("d");
    reveal_strlit("Tr");
    reveal_strlit("map_Kd");
    reveal_strlit("map_d");
    reveal_strlit("map_bump");
    reveal_strlit("bump");
    reveal_strlit("norm");
    reveal_strlit("map_Ka");
    assert("Kd"@.len() == 2 && "Ks"@.len() == 2 && "Ke"@.len() == 2 && "Ns"@.len() == 2 && "d"@.len()
        == 1 && "Tr"@.len() == 2);
    assert("Kd"@[1] == 'd' && "Ks"@[1] == 's' && "Ke"@[1] == 'e' && "Ns"@[0] == 'N' && "Tr"@[0]
        == 'T' && "Kd"@[0] == 'K' && "Ks"@[0] == 'K' && "Ke"@[0] == 'K');
    assert("map_Kd"@.len() == 6 && "map_d"@.len() == 5 && "map_bump"@.len() == 8 && "bump"@.len() == 4
        && "norm"@.len() == 4 && "map_Ka"@.len() == 6);
    assert("map_Kd"@[5] == 'd' && "map_Ka"@[5] == 'a' && "bump"@[0] == 'b' && "norm"@[0] == 'n');
}

proof fn lemma_three(a: Seq<char>, b: Seq<char>, c: Seq<char>, was: (Seq<char>, Seq<char>, Seq<char>))
    requires
        number_word(a) && number_word(b) && number_word(c),
    ensures
        color_in(words(three_words(a, b, c)), was) == (a, b, c),
        color_in(words(a), was) == (a, a, a),
        first_number(words(a)) == Some(a),
{
    words_are_found_again(a, b, c);
    a_word_is_its_only_word(a);
    let w = seq![a, b, c];
    reveal_with_fuel(numbers_in, 4);
    assert(w.skip(1)[0] == b);
    assert(w.skip(1).skip(1)[0] == c);
    assert(w.skip(1).skip(1).skip(1).len() == 0);
    assert(numbers_in(w) == 3);
    assert(seq![a].skip(1).len() == 0);
    assert(numbers_in(seq![a]) == 1);
}

/// Colours have their three parts in the order in which they are written, or all the same; each goes
/// to the property of its key and to no other.
pub proof fn colours_go_to_their_keys(m: MtlModel, a: Seq<char>, b: Seq<char>, c: Seq<char>)
    requires
        number_word(a) && number_word(b) && number_word(c),
    ensures
        with_key(m, "Kd"@, three_words(a, b, c)) == (MtlModel { kd: (a, b, c), ..m }),
        with_key(m, "Ks"@, three_words(a, b, c)) == (MtlModel { ks: (a, b, c), ..m }),
        with_key(m, "Ke"@, three_words(a, b, c)) == (MtlModel { ke: (a, b, c), ..m }),
        with_key(m, "Kd"@, a) == (MtlModel { kd: (a, a, a), ..m }),
        with_key(m, "Ks"@, a) == (MtlModel { ks: (a, a, a), ..m }),
        with_key(m, "Ke"@, a) == (MtlModel { ke: (a, a, a), ..m }),
{
    lemma_keys();
    lemma_three(a, b, c, m.kd);
    lemma_three(a, b, c, m.ks);
    lemma_three(a, b, c, m.ke);
}

/// Numbers go to the property of their key and to no other; `Tr` is transparency, `d` its opposite.
pub proof fn numbers_go_to_their_keys(m: MtlModel, a: Seq<char>)
    requires
        number_word(a),
    ensures
        with_key(m, "Ns"@, a) == (MtlModel { ns: a, ..m }),
        with_key(m, "d"@, a) == (MtlModel { d: a, d_is_transparency: false, ..m }),
        with_key(m, "Tr"@, a) == (MtlModel { d: a, d_is_transparency: true, ..m }),
{
    lemma_keys();
    lemma_three(a, a, a, m.kd);
}

/// Whether a text is the path of a picture, and has no options before it.
pub open spec fn plain_path(p: Seq<char>) -> bool {
    solid(p) && p[0] != '-' && !p.contains('\\')
}

proof fn lemma_path(p: Seq<char>)
    requires
        plain_path(p),
    ensures
        map_path(p) == Some(p),
        words(p) == seq![p],
{
    assert(!is_space(p[0]) && !is_space(p[p.len() - 1]));
    tight_text_is_left_alone(p);
    a_word_is_its_only_word(p);
    lemma_slashes(p);
}

proof fn lemma_slashes(p: Seq<char>)
    requires
        !p.contains('\\'),
    ensures
        replaced(p, '\\', '/') == p,
{
    assert forall|i: int| 0 <= i < p.len() implies replaced(p, '\\', '/')[i] == p[i] by {
        assert(p.contains(p[i]));
    }
    assert(replaced(p, '\\', '/') =~= p);
}

/// Pictures go to the property of their key and to no other.
pub proof fn pictures_go_to_their_keys(m: MtlModel, p: Seq<char>)
    requires
        plain_path(p),
    ensures
        with_key(m, "map_Kd"@, p) == (MtlModel { map_kd: Some(p), ..m }),
        with_key(m, "map_d"@, p) == (MtlModel { map_d: Some(p), ..m }),
        with_key(m, "map_bump"@, p) == (MtlModel { map_bump: Some(p), ..m }),
        with_key(m, "bump"@, p) == (MtlModel { map_bump: Some(p), ..m }),
        with_key(m, "norm"@, p) == (MtlModel { norm: Some(p), ..m }),
        with_key(m, "map_Ka"@, p) == (MtlModel { map_ka: Some(p), ..m }),
{
    lemma_keys();
    lemma_path(p);
    assert("map_Kd"@.len() > 2 && "map_d"@.len() > 2 && "map_bump"@.len() > 2);
    assert("bump"@.len() > 2 && "norm"@.len() > 2 && "map_Ka"@.len() > 2);
    assert(strength_in(seq![p], m.bm) == m.bm);
}

/// A height map has the strength that `-bm` gives, and is the file that is named last.
pub proof fn heights_may_be_scaled(m: MtlModel, v: Seq<char>, p: Seq<char>)
    requires
        number_word(v),
        plain_path(p),
    ensures
        with_key(m, "map_bump"@, three_words(seq!['-', 'b', 'm'], v, p)) == (MtlModel {
            map_bump: Some(p),
            bm: v,
            ..m
        }),
        with_key(m, "bump"@, three_words(seq!['-', 'b', 'm'], v, p)) == (MtlModel {
            map_bump: Some(p),
            bm: v,
            ..m
        }),
{
    lemma_keys();
    blanks_are_space();
    let o = seq!['-', 'b', 'm'];
    reveal_strlit("-bm");
    assert("-bm"@ =~= o);
    let r = three_words(o, v, p);
    words_are_found_again(o, v, p);
    tight_text_is_left_alone(r);
    assert(r[0] == '-');
    lemma_slashes(p);
    assert("map_bump"@.len() > 2 && "bump"@.len() > 2);
    assert(seq![o, v, p].last() == p);
}

/// A path may be written with either slash.
pub proof fn slashes_are_alike(p: Seq<char>, i: int)
    requires
        solid(p),
        p[0] != '-',
        0 <= i < p.len(),
    ensures
        map_path(p) is Some && map_path(p)->Some_0.len() == p.len(),
        p[i] == '\\' ==> map_path(p)->Some_0[i] == '/',
        p[i] != '\\' ==> map_path(p)->Some_0[i] == p[i],
{
    assert(!is_space(p[0]) && !is_space(p[p.len() - 1]));
    tight_text_is_left_alone(p);
}

/// A line `newmtl name` puts the material before it away and starts one with that name, which is a
/// light grey, does not shine, is opaque and has no pictures. A name that is there already is noted,
/// and what follows it is skipped.
pub proof fn materials_start_plain(s: MtlState, name: Seq<char>)
    requires
        plain_line("newmtl"@, name),
    ensures
        ({
            let r = with_mtl_line(s, line_of("newmtl"@, name));
            let done = closed_off(s);
            let known = exists|i: int| 0 <= i < done.len() && (#[trigger] done[i]).name == name;
            &&& r.materials == done
            &&& !known ==> r.current == Some(
                MtlModel {
                    name,
                    kd: ("0.8"@, "0.8"@, "0.8"@),
                    ks: ("0"@, "0"@, "0"@),
                    ke: ("0"@, "0"@, "0"@),
                    ns: "0"@,
                    d: "1"@,
                    d_is_transparency: false,
                    bm: "1"@,
                    map_kd: None,
                    map_d: None,
                    map_bump: None,
                    norm: None,
                    map_ka: None,
                },
            ) && !r.skipping && r.dup_names == s.dup_names
            &&& known ==> r.current is None && r.skipping && r.dup_names == s.dup_names.push(name)
        }),
{
    lemma_line("newmtl"@, name);
}

/// What follows a name that is there already changes nothing, up to the next name.
pub proof fn second_definitions_are_skipped(s: MtlState, key: Seq<char>, rest: Seq<char>)
    requires
        plain_line(key, rest),
        key != "newmtl"@,
        s.skipping || s.current is None,
    ensures
        with_mtl_line(s, line_of(key, rest)) == s,
{
    lemma_line(key, rest);
}

/// A library is read line by line, from nothing on; at its end the material at hand is put away too.
pub proof fn libraries_are_read_line_by_line(l: Seq<Seq<char>>, line: Seq<char>, s: MtlState)
    ensures
        mtl_state(l.push(line)) == with_mtl_line(mtl_state(l), line),
        mtl_state(Seq::empty()).materials.len() == 0,
        mtl_state(Seq::empty()).dup_names.len() == 0,
        mtl_state(Seq::empty()).current is None,
        !mtl_state(Seq::empty()).skipping,
        s.current is Some ==> closed_off(s) == s.materials.push(s.current->Some_0),
        s.current is None ==> closed_off(s) == s.materials,
{
    assert(l.push(line).drop_last() =~= l);
}

/// White space around a line does not matter.
pub proof fn space_around_lines_is_skipped(
    s: MtlState,
    before: Seq<char>,
    key: Seq<char>,
    rest: Seq<char>,
    after: Seq<char>,
)
    requires
        plain_line(key, rest),
        forall|i: int| 0 <= i < before.len() ==> is_space(#[trigger] before[i]),
        forall|i: int| 0 <= i < after.len() ==> is_space(#[trigger] after[i]),
    ensures
        with_mtl_line(s, before + line_of(key, rest) + after) == with_mtl_line(s, line_of(key, rest)),
{
    blanks_are_space();
    lemma_line(key, rest);
    let l = line_of(key, rest);
    let t = before + l + after;
    let none = Seq::<char>::empty();
    assert(!t.contains('#')) by {
        if t.contains('#') {
            let i = choose|i: int| 0 <= i < t.len() && t[i] == '#';
            if i < before.len() {
                assert(is_space(before[i]));
            } else if i < before.len() + key.len() {
                assert(key[i - before.len()] == '#');
            } else if before.len() + key.len() < i < before.len() + l.len() {
                assert(rest[i - before.len() - key.len() - 1] == '#');
            } else if i >= before.len() + l.len() {
                assert(is_space(after[i - before.len() - l.len()]));
            }
        }
    }
    characters_are_found_where_they_first_stand(t, '#', none);
    assert(t + none =~= t);
    assert(t.take(t.len() as int) =~= t);
    assert(!is_space(key[0]));
    assert(l[0] == key[0] && l.last() == rest.last());
    super::text_rules::trimming_takes_only_space(before, l, after);
}

/// A colour of two numbers, a property without a number and a key that is unknown change nothing.
pub proof fn unclear_lines_change_nothing(m: MtlModel, key: Seq<char>, a: Seq<char>, b: Seq<char>)
    requires
        number_word(a) && number_word(b),
    ensures
        key == "Kd"@ || key == "Ks"@ || key == "Ke"@ ==> with_key(m, key, two_words(a, b)) == m,
        key != "Kd"@ && key != "Ks"@ && key != "Ke"@ && key != "Ns"@ && key != "d"@ && key != "Tr"@
            && key != "map_Kd"@ && key != "map_d"@ && key != "map_bump"@ && key != "bump"@ && key
            != "norm"@ && key != "map_Ka"@ ==> with_key(m, key, a) == m,
{
    words_are_found_again(a, b, b);
    let w = seq![a, b];
    reveal_with_fuel(numbers_in, 3);
    assert(w.skip(1)[0] == b);
    assert(w.skip(1).skip(1).len() == 0);
    assert(numbers_in(w) == 2);
}

/// What is not a number changes no number.
pub proof fn words_change_no_number(m: MtlModel, x: Seq<char>)
    requires
        solid(x),
        !is_float(x),
    ensures
        with_key(m, "Kd"@, x) == m,
        with_key(m, "Ks"@, x) == m,
        with_key(m, "Ke"@, x) == m,
        with_key(m, "Ns"@, x) == m,
        with_key(m, "d"@, x) == m,
        with_key(m, "Tr"@, x) == m,
{
    lemma_keys();
    a_word_is_its_only_word(x);
    assert(numbers_in(seq![x]) == 0);
}

/// A path may hold blanks; after options it is the last word.
pub proof fn paths_may_follow_options(m: MtlModel, p: Seq<char>, o: Seq<char>, v: Seq<char>, f: Seq<char>)
    requires
        tight(p) && p[0] != '-' && !p.contains('\\'),
        solid(o) && o[0] == '-',
        solid(v),
        solid(f) && !f.contains('\\'),
    ensures
        with_key(m, "map_Kd"@, p) == (MtlModel { map_kd: Some(p), ..m }),
        with_key(m, "map_d"@, p) == (MtlModel { map_d: Some(p), ..m }),
        with_key(m, "norm"@, p) == (MtlModel { norm: Some(p), ..m }),
        with_key(m, "map_Kd"@, three_words(o, v, f)) == (MtlModel { map_kd: Some(f), ..m }),
        with_key(m, "map_d"@, three_words(o, v, f)) == (MtlModel { map_d: Some(f), ..m }),
        with_key(m, "norm"@, three_words(o, v, f)) == (MtlModel { norm: Some(f), ..m }),
{
    lemma_keys();
    tight_text_is_left_alone(p);
    lemma_slashes(p);
    lemma_slashes(f);
    let r = three_words(o, v, f);
    words_are_found_again(o, v, f);
    tight_text_is_left_alone(r);
    assert(r[0] == '-');
    assert(seq![o, v, f].last() == f);
    assert("map_Kd"@.len() > 2 && "map_d"@.len() > 2 && "norm"@.len() > 2);
}

} // verus!
