//! Wavefront MTL material libraries.
//!
//! Only the text is read: numbers are kept as they are written. White space in front of a line and
//! everything from a `#` on is ignored, so are unknown keys; paths may be written with `\`. Where
//! a material is defined twice, the first definition stays.

use crate::obj::{name_index, strings};
use crate::text::{
    chars_of, copied, find_char, float, index_of_char, is_float, is_word, lines, replace_char,
    replaced, space, split_lines, split_words, string_of, texts, trim, trimmed, word_len, words,
};
use vstd::prelude::*;
use vstd::slice::slice_subrange;

verus! {

/// A material, its numbers as text.
pub struct MtlModel {
    pub name: Seq<char>,
    /// Diffuse colour.
    pub kd: (Seq<char>, Seq<char>, Seq<char>),
    /// Specular colour.
    pub ks: (Seq<char>, Seq<char>, Seq<char>),
    /// Emitted colour.
    pub ke: (Seq<char>, Seq<char>, Seq<char>),
    /// Specular exponent.
    pub ns: Seq<char>,
    /// Opacity, or transparency if `d_is_transparency`.
    pub d: Seq<char>,
    pub d_is_transparency: bool,
    /// Strength of the height map.
    pub bm: Seq<char>,
    pub map_kd: Option<Seq<char>>,
    pub map_d: Option<Seq<char>>,
    pub map_bump: Option<Seq<char>>,
    pub norm: Option<Seq<char>>,
    pub map_ka: Option<Seq<char>>,
}

/// Three numbers as text.
pub struct Rgb {
    pub r: String,
    pub g: String,
    pub b: String,
}

impl View for Rgb {
    type V = (Seq<char>, Seq<char>, Seq<char>);

    open spec fn view(&self) -> Self::V {
        (self.r@, self.g@, self.b@)
    }
}

/// A material.
pub struct MtlMaterial {
    pub name: String,
    pub kd: Rgb,
    pub ks: Rgb,
    pub ke: Rgb,
    pub ns: String,
    pub d: String,
    pub d_is_transparency: bool,
    pub bm: String,
    pub map_kd: Option<String>,
    pub map_d: Option<String>,
    pub map_bump: Option<String>,
    pub norm: Option<String>,
    pub map_ka: Option<String>,
}

/// The text of a string that may be missing.
pub open spec fn opt_text(o: Option<String>) -> Option<Seq<char>> {
    match o {
        Some(s) => Some(s@),
        None => None,
    }
}

impl View for MtlMaterial {
    type V = MtlModel;

    open spec fn view(&self) -> MtlModel {
        MtlModel {
            name: self.name@,
            kd: self.kd@,
            ks: self.ks@,
            ke: self.ke@,
            ns: self.ns@,
            d: self.d@,
            d_is_transparency: self.d_is_transparency,
            bm: self.bm@,
            map_kd: opt_text(self.map_kd),
            map_d: opt_text(self.map_d),
            map_bump: opt_text(self.map_bump),
            norm: opt_text(self.norm),
            map_ka: opt_text(self.map_ka),
        }
    }
}

/// A material of which only the name is given.
pub open spec fn plain_material(name: Seq<char>) -> MtlModel {
    MtlModel {
        name,
        kd: ("0.8"@, "0.8"@, "0.8"@),
        ks: ("0"@, "0"@, "0"@),
        ke: ("0"@, "0"@, "0"@),
        ns: "0"@,
        d: "1"@,
        d_is_transparency: false,
        bm: "1"@,
        map_kd: None,
        map_d: None,
        map_bump: None,
        norm: None,
        map_ka: None,
    }
}

fn rgb(r: &str, g: &str, b: &str) -> (c: Rgb)
    ensures
        c@ == (r@, g@, b@),
{
    Rgb { r: copied(r), g: copied(g), b: copied(b) }
}

impl MtlMaterial {
    /// A material of which only the name is given.
    pub fn new(name: &[char]) -> (r: Self)
        ensures
            r@ == plain_material(name@),
    {
        MtlMaterial {
            name: string_of(name),
            kd: rgb("0.8", "0.8", "0.8"),
            ks: rgb("0", "0", "0"),
            ke: rgb("0", "0", "0"),
            ns: copied("0"),
            d: copied("1"),
            d_is_transparency: false,
            bm: copied("1"),
            map_kd: None,
            map_d: None,
            map_bump: None,
            norm: None,
            map_ka: None,
        }
    }
}

/// The path at the end of a texture line: the last word where options come first, else all of it,
/// so that names may have spaces. Both kinds of slashes separate directories.
pub open spec fn map_path(rest: Seq<char>) -> Option<Seq<char>> {
    let r = trimmed(rest);
    let w = words(r);
    let path = if r.len() > 0 && r[0] == '-' {
        if w.len() > 0 {
            w.last()
        } else {
            Seq::empty()
        }
    } else {
        r
    };
    if path.len() == 0 {
        None
    } else {
        Some(replaced(path, '\\', '/'))
    }
}

/// The path at the end of a texture line.
pub fn parse_map_path(rest: &[char]) -> (r: Option<String>)
    ensures
        opt_text(r) == map_path(rest@),
{
    let t = trim(rest);
    if t.len() > 0 && t[0] == '-' {
        let w = split_words(t);
        if w.len() == 0 {
            return None;
        }
        let last = w[w.len() - 1];
        assert(texts(w@)[w@.len() - 1] == last@);
        if last.len() == 0 {
            None
        } else {
            Some(replace_char(last, '\\', '/'))
        }
    } else if t.len() == 0 {
        None
    } else {
        Some(replace_char(t, '\\', '/'))
    }
}

/// The strength that a height map line gives: the number behind the first `-bm` that has one.
pub open spec fn strength_in(w: Seq<Seq<char>>, default: Seq<char>) -> Seq<char>
    decreases w.len(),
{
    if w.len() < 2 {
        default
    } else if w[0] == "-bm"@ && is_float(w[1]) {
        w[1]
    } else {
        strength_in(w.skip(1), default)
    }
}

fn strength(rest: &[char], default: String) -> (r: String)
    ensures
        r@ == strength_in(words(rest@), default@),
{
    let w = split_words(rest);
    let ghost all = texts(w@);
    let mut i: usize = 0;
    assert(all.skip(0) =~= all);
    while w.len() >= 2 && i < w.len() - 1
        invariant
            i <= w@.len(),
            all == texts(w@),
            all == words(rest@),
            strength_in(all, default@) == strength_in(all.skip(i as int), default@),
        decreases w@.len() - i,
    {
        let ghost s = all.skip(i as int);
        assert(s[0] == w@[i as int]@ && s[1] == w@[i + 1]@);
        if is_word(w[i], "-bm") && float(w[i + 1]) {
            return string_of(w[i + 1]);
        }
        assert(s.skip(1) =~= all.skip(i + 1));
        i += 1;
    }
    default
}

/// How many of the words, from the first on, are numbers.
pub open spec fn numbers_in(w: Seq<Seq<char>>) -> int
    decreases w.len(),
{
    if w.len() > 0 && is_float(w[0]) {
        1 + numbers_in(w.skip(1))
    } else {
        0
    }
}

/// A colour: three numbers, or one for all three; anything else leaves it as it was.
pub open spec fn color_in(w: Seq<Seq<char>>, was: (Seq<char>, Seq<char>, Seq<char>)) -> (
    Seq<char>,
    Seq<char>,
    Seq<char>,
) {
    let n = numbers_in(w);
    if n == 1 {
        (w[0], w[0], w[0])
    } else if n >= 3 {
        (w[0], w[1], w[2])
    } else {
        was
    }
}

fn parse3(rest: &[char], was: Rgb) -> (r: Rgb)
    ensures
        r@ == color_in(words(rest@), was@),
{
    let w = split_words(rest);
    let ghost all = texts(w@);
    let mut n: usize = 0;
    assert(all.skip(0) =~= all);
    let mut go: bool = true;
    while go && n < w.len()
        invariant
            n <= w@.len(),
            all == texts(w@),
            go ==> numbers_in(all) == n + numbers_in(all.skip(n as int)),
            !go ==> numbers_in(all) == n,
        decreases w@.len() - n + (if go {
            1int
        } else {
            0
        }),
    {
        let ghost s = all.skip(n as int);
        assert(s[0] == w@[n as int]@);
        if float(w[n]) {
            assert(s.skip(1) =~= all.skip(n + 1));
            n += 1;
        } else {
            go = false;
        }
    }
    proof {
        assert forall|i: int| 0 <= i < w@.len() implies all[i] == #[trigger] w@[i]@ by {}
    }
    if n == 1 {
        Rgb { r: string_of(w[0]), g: string_of(w[0]), b: string_of(w[0]) }
    } else if n >= 3 {
        Rgb { r: string_of(w[0]), g: string_of(w[1]), b: string_of(w[2]) }
    } else {
        was
    }
}

/// The first word, if it is a number.
pub open spec fn first_number(w: Seq<Seq<char>>) -> Option<Seq<char>> {
    if w.len() > 0 && is_float(w[0]) {
        Some(w[0])
    } else {
        None
    }
}

fn first_f64(rest: &[char]) -> (r: Option<String>)
    ensures
        opt_text(r) == first_number(words(rest@)),
{
    let w = split_words(rest);
    if w.len() == 0 {
        return None;
    }
    assert(texts(w@)[0] == w@[0]@);
    if float(w[0]) {
        Some(string_of(w[0]))
    } else {
        None
    }
}

/// The material after a line with this key. A line that does not hold what its key asks for
/// changes nothing.
pub open spec fn with_key(m: MtlModel, key: Seq<char>, rest: Seq<char>) -> MtlModel {
    let w = words(rest);
    let n = first_number(w);
    if key == "Kd"@ {
        MtlModel { kd: color_in(w, m.kd), ..m }
    } else if key == "Ks"@ {
        MtlModel { ks: color_in(w, m.ks), ..m }
    } else if key == "Ke"@ {
        MtlModel { ke: color_in(w, m.ke), ..m }
    } else if key == "Ns"@ {
        match n {
            Some(v) => MtlModel { ns: v, ..m },
            None => m,
        }
    } else if key == "d"@ {
        match n {
            Some(v) => MtlModel { d: v, d_is_transparency: false, ..m },
            None => m,
        }
    } else if key == "Tr"@ {
        match n {
            Some(v) => MtlModel { d: v, d_is_transparency: true, ..m },
            None => m,
        }
    } else {
        match map_path(rest) {
            Some(p) => with_map(m, key, p, w),
            None => m,
        }
    }
}

/// The material after a line that gives the path `p` of a map, in the words `w`.
pub open spec fn with_map(
    m: MtlModel,
    key: Seq<char>,
    p: Seq<char>,
    w: Seq<Seq<char>>,
) -> MtlModel {
    if key == "map_Kd"@ {
        MtlModel { map_kd: Some(p), ..m }
    } else if key == "map_d"@ {
        MtlModel { map_d: Some(p), ..m }
    } else if key == "map_bump"@ || key == "bump"@ {
        MtlModel { map_bump: Some(p), bm: strength_in(w, m.bm), ..m }
    } else if key == "norm"@ {
        MtlModel { norm: Some(p), ..m }
    } else if key == "map_Ka"@ {
        MtlModel { map_ka: Some(p), ..m }
    } else {
        m
    }
}

fn read_key(m: MtlMaterial, key: &[char], rest: &[char]) -> (r: MtlMaterial)
    ensures
        r@ == with_key(m@, key@, rest@),
{
    let mut r = m;
    if is_word(key, "Kd") {
        let c = parse3(rest, r.kd);
        r.kd = c;
    } else if is_word(key, "Ks") {
        let c = parse3(rest, r.ks);
        r.ks = c;
    } else if is_word(key, "Ke") {
        let c = parse3(rest, r.ke);
        r.ke = c;
    } else if is_word(key, "Ns") {
        if let Some(v) = first_f64(rest) {
            r.ns = v;
        }
    } else if is_word(key, "d") {
        if let Some(v) = first_f64(rest) {
            r.d = v;
            r.d_is_transparency = false;
        }
    } else if is_word(key, "Tr") {
        if let Some(v) = first_f64(rest) {
            r.d = v;
            r.d_is_transparency = true;
        }
    } else if let Some(p) = parse_map_path(rest) {
        if is_word(key, "map_Kd") {
            r.map_kd = Some(p);
        } else if is_word(key, "map_d") {
            r.map_d = Some(p);
        } else if is_word(key, "map_bump") || is_word(key, "bump") {
            r.map_bump = Some(p);
            let bm = strength(rest, r.bm);
            r.bm = bm;
        } else if is_word(key, "norm") {
            r.norm = Some(p);
        } else if is_word(key, "map_Ka") {
            r.map_ka = Some(p);
        }
    }
    r
}

/// What has been read so far.
pub struct MtlState {
    pub materials: Seq<MtlModel>,
    pub dup_names: Seq<Seq<char>>,
    /// The material being defined.
    pub current: Option<MtlModel>,
    /// Whether the material being defined was defined before.
    pub skipping: bool,
}

/// The materials with the current one.
pub open spec fn closed_off(s: MtlState) -> Seq<MtlModel> {
    match s.current {
        Some(m) => s.materials.push(m),
        None => s.materials,
    }
}

pub open spec fn has_name(m: Seq<MtlModel>, name: Seq<char>) -> bool {
    exists|i: int| 0 <= i < m.len() && (#[trigger] m[i]).name == name
}

/// The line up to a `#`, without white space around it.
pub open spec fn without_comment(line: Seq<char>) -> Seq<char> {
    trimmed(line.take(index_of_char(line, '#')))
}

/// The first word of a line.
pub open spec fn key_of(l: Seq<char>) -> Seq<char> {
    l.take(word_len(l) as int)
}

/// What follows the first word of a line.
pub open spec fn rest_of(l: Seq<char>) -> Seq<char> {
    if word_len(l) < l.len() {
        trimmed(l.skip(word_len(l) as int + 1))
    } else {
        Seq::empty()
    }
}

/// The state after one more line.
pub open spec fn with_mtl_line(s: MtlState, line: Seq<char>) -> MtlState {
    let l = without_comment(line);
    let key = key_of(l);
    let rest = rest_of(l);
    if l.len() == 0 {
        s
    } else if key == "newmtl"@ {
        let done = closed_off(s);
        if has_name(done, rest) {
            MtlState {
                materials: done,
                dup_names: s.dup_names.push(rest),
                current: None,
                skipping: true,
            }
        } else {
            MtlState {
                materials: done,
                dup_names: s.dup_names,
                current: Some(plain_material(rest)),
                skipping: false,
            }
        }
    } else if s.skipping {
        s
    } else {
        match s.current {
            Some(m) => MtlState { current: Some(with_key(m, key, rest)), ..s },
            None => s,
        }
    }
}

/// The state after these lines.
pub open spec fn mtl_state(l: Seq<Seq<char>>) -> MtlState
    decreases l.len(),
{
    if l.len() == 0 {
        MtlState {
            materials: Seq::empty(),
            dup_names: Seq::empty(),
            current: None,
            skipping: false,
        }
    } else {
        with_mtl_line(mtl_state(l.drop_last()), l.last())
    }
}

/// The materials of a library.
pub open spec fn mtl_materials(text: Seq<char>) -> Seq<MtlModel> {
    closed_off(mtl_state(lines(text)))
}

/// The names that a library defines more than once, as often as it does so again.
pub open spec fn mtl_duplicates(text: Seq<char>) -> Seq<Seq<char>> {
    mtl_state(lines(text)).dup_names
}

pub open spec fn distinct_names(m: Seq<MtlModel>) -> bool {
    forall|i: int, j: int|
        0 <= i < j < m.len() ==> (#[trigger] m[i]).name != (#[trigger] m[j]).name
}

proof fn lemma_with_key_name(m: MtlModel, key: Seq<char>, rest: Seq<char>)
    ensures
        with_key(m, key, rest).name == m.name,
{
}

proof fn lemma_state_distinct(l: Seq<Seq<char>>)
    ensures
        distinct_names(closed_off(mtl_state(l))),
        mtl_state(l).skipping ==> mtl_state(l).current is None,
    decreases l.len(),
{
    if l.len() > 0 {
        lemma_state_distinct(l.drop_last());
        let s = mtl_state(l.drop_last());
        let t = mtl_state(l);
        let line = without_comment(l.last());
        let key = key_of(line);
        let rest = rest_of(line);
        let done = closed_off(s);
        if line.len() == 0 {
        } else if key == "newmtl"@ {
            if !has_name(done, rest) {
                assert forall|i: int, j: int| 0 <= i < j < closed_off(t).len() implies (
                #[trigger] closed_off(t)[i]).name != (#[trigger] closed_off(t)[j]).name by {
                    assert(closed_off(t)[i] == done[i]);
                    if j < done.len() {
                        assert(closed_off(t)[j] == done[j]);
                    }
                }
            }
        } else if s.skipping {
        } else {
            if let Some(m) = s.current {
                lemma_with_key_name(m, key, rest);
                let a = closed_off(s);
                let b = closed_off(t);
                assert forall|i: int, j: int| 0 <= i < j < b.len() implies (#[trigger] b[i]).name
                    != (#[trigger] b[j]).name by {
                    assert(a[i].name == b[i].name && a[j].name == b[j].name);
                }
            }
        }
    }
}

/// No two materials of a library have one name.
pub proof fn materials_have_distinct_names(text: Seq<char>)
    ensures
        distinct_names(mtl_materials(text)),
{
    lemma_state_distinct(lines(text));
}

/// A library.
pub struct MtlFile {
    pub materials: Vec<MtlMaterial>,
    /// Names that were defined again.
    pub dup_names: Vec<String>,
}

pub open spec fn material_models(v: Seq<MtlMaterial>) -> Seq<MtlModel> {
    v.map_values(|m: MtlMaterial| m@)
}

pub open spec fn material_names(v: Seq<MtlMaterial>) -> Seq<Seq<char>> {
    v.map_values(|m: MtlMaterial| m.name@)
}

impl MtlFile {
    /// Where the material of a name is, or the number of materials.
    pub fn find(&self, name: &str) -> (r: usize)
        ensures
            r == name_index(material_names(self.materials@), name@),
            r <= self.materials@.len(),
            r < self.materials@.len() ==> self.materials@[r as int].name@ == name@,
    {
        let c = chars_of(name);
        let ghost all = material_names(self.materials@);
        let mut i: usize = 0;
        assert(all.skip(0) =~= all);
        while i < self.materials.len()
            invariant
                i <= self.materials@.len(),
                c@ == name@,
                all == material_names(self.materials@),
                name_index(all, name@) == i + name_index(all.skip(i as int), name@),
            decreases self.materials@.len() - i,
        {
            let ghost rest = all.skip(i as int);
            assert(rest[0] == self.materials@[i as int].name@);
            if is_word(&c, self.materials[i].name.as_str()) {
                return i;
            }
            assert(rest.skip(1) =~= all.skip(i + 1));
            i += 1;
        }
        i
    }

    /// The material of a name.
    pub fn get(&self, name: &str) -> (r: Option<&MtlMaterial>)
        ensures
            ({
                let i = name_index(material_names(self.materials@), name@);
                match r {
                    Some(m) => i < self.materials@.len() && *m == self.materials@[i],
                    None => i == self.materials@.len(),
                }
            }),
    {
        let i: usize = self.find(name);
        proof {
            crate::obj::lemma_name_index(material_names(self.materials@), name@);
        }
        if i < self.materials.len() {
            Some(&self.materials[i])
        } else {
            None
        }
    }
}

/// The state of a reader.
struct MtlReader {
    file: MtlFile,
    current: Option<MtlMaterial>,
    skipping: bool,
}

impl MtlReader {
    spec fn is(&self, s: MtlState) -> bool {
        &&& material_models(self.file.materials@) == s.materials
        &&& strings(self.file.dup_names@) == s.dup_names
        &&& match self.current {
            Some(m) => s.current == Some(m@),
            None => s.current is None,
        }
        &&& self.skipping == s.skipping
    }

    fn close_off(&mut self, Ghost(s): Ghost<MtlState>)
        requires
            old(self).is(s),
        ensures
            final(self).is(MtlState { materials: closed_off(s), current: None, ..s }),
    {
        match self.current.take() {
            Some(m) => {
                let ghost before = self.file.materials@;
                self.file.materials.push(m);
                assert(material_models(self.file.materials@) =~= material_models(before).push(m@));
            },
            None => {},
        }
    }

    fn read_line(&mut self, line: &[char], Ghost(s): Ghost<MtlState>)
        requires
            old(self).is(s),
        ensures
            final(self).is(with_mtl_line(s, line@)),
    {
        let end: usize = find_char(line, 0, '#');
        assert(line@.skip(0) =~= line@);
        let before = slice_subrange(line, 0, end);
        assert(before@ =~= line@.take(end as int));
        let l = trim(before);
        if l.len() == 0 {
            return;
        }
        let n: usize = first_word(l);
        let key = slice_subrange(l, 0, n);
        assert(key@ =~= key_of(l@));
        let rest: &[char] = if n < l.len() {
            let after = slice_subrange(l, n + 1, l.len());
            assert(after@ =~= l@.skip(n + 1));
            trim(after)
        } else {
            slice_subrange(l, n, n)
        };
        assert(rest@ =~= rest_of(l@));
        if is_word(key, "newmtl") {
            self.close_off(Ghost(s));
            let ghost done = closed_off(s);
            let name = string_of(rest);
            let i: usize = self.file.find(name.as_str());
            proof {
                let names = material_names(self.file.materials@);
                crate::obj::lemma_name_index(names, rest@);
                assert forall|k: int| 0 <= k < done.len() implies (#[trigger] done[k]).name
                    == names[k] by {}
                if i < names.len() {
                    assert(done[i as int].name == rest@);
                } else if has_name(done, rest@) {
                    let k = choose|k: int| 0 <= k < done.len() && (#[trigger] done[k]).name
                        == rest@;
                    assert(names[k] == rest@);
                    assert(names.contains(rest@));
                }
            }
            if i < self.file.materials.len() {
                let ghost dups = self.file.dup_names@;
                self.file.dup_names.push(name);
                assert(strings(self.file.dup_names@) =~= strings(dups).push(rest@));
                self.skipping = true;
            } else {
                self.skipping = false;
                self.current = Some(MtlMaterial::new(rest));
            }
            return;
        }
        if self.skipping {
            return;
        }
        match self.current.take() {
            Some(m) => {
                self.current = Some(read_key(m, key, rest));
            },
            None => {},
        }
    }
}

/// How long the first word is.
fn first_word(l: &[char]) -> (n: usize)
    ensures
        n == word_len(l@),
        n <= l@.len(),
{
    let mut n: usize = 0;
    assert(l@.skip(0) =~= l@);
    while n < l.len() && !space(l[n])
        invariant
            n <= l@.len(),
            word_len(l@) == n + word_len(l@.skip(n as int)),
        decreases l@.len() - n,
    {
        assert(l@.skip(n as int).skip(1) =~= l@.skip(n + 1));
        n += 1;
    }
    n
}

/// Reads a material library.
pub fn parse_mtl(text: &str) -> (r: MtlFile)
    ensures
        material_models(r.materials@) == mtl_materials(text@),
        strings(r.dup_names@) == mtl_duplicates(text@),
        distinct_names(mtl_materials(text@)),
{
    let chars = chars_of(text);
    let ls = split_lines(&chars);
    let ghost all = lines(text@);
    let mut reader = MtlReader {
        file: MtlFile { materials: Vec::new(), dup_names: Vec::new() },
        current: None,
        skipping: false,
    };
    let mut i: usize = 0;
    proof {
        assert(all.take(0) =~= Seq::<Seq<char>>::empty());
        assert(material_models(reader.file.materials@) =~= Seq::empty());
        assert(strings(reader.file.dup_names@) =~= Seq::empty());
    }
    while i < ls.len()
        invariant
            i <= ls@.len(),
            texts(ls@) == all,
            reader.is(mtl_state(all.take(i as int))),
        decreases ls@.len() - i,
    {
        let ghost s = mtl_state(all.take(i as int));
        proof {
            assert(all.take(i + 1).drop_last() =~= all.take(i as int));
            assert(all[i as int] == ls@[i as int]@);
        }
        reader.read_line(ls[i], Ghost(s));
        i += 1;
    }
    proof {
        assert(all.take(i as int) =~= all);
        materials_have_distinct_names(text@);
    }
    reader.close_off(Ghost(mtl_state(all)));
    reader.file
}

} // verus!
