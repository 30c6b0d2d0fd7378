use vstd::prelude::*;

use crate::set_map::{distinct_strs, has_str, lemma_has_str_prefix, push_unique, str_set};

verus! {

/// What remains of `s` once its ANSI escape sequences are taken out.
pub uninterp spec fn ansi_stripped(s: Seq<char>) -> Seq<char>;

/// `s` without leading and trailing whitespace.
pub uninterp spec fn trimmed(s: Seq<char>) -> Seq<char>;

/// Whether `c` is a final byte, `@` through `~`, which closes a control sequence.
pub open spec fn is_final_byte(c: char) -> bool {
    0x40 <= (c as u32) <= 0x7e
}

/// Whether `c` ends any escape or control sequence: CAN, SUB, or a new escape.
pub open spec fn cancels_sequence(c: char) -> bool {
    (c as u32) == 0x18 || (c as u32) == 0x1a || (c as u32) == 0x1b
}

/// Whether the escape parser, having read an escape, stays waiting on `c`: control
/// characters other than those that cancel, DEL, and every non-ASCII character.
pub open spec fn escape_waits(c: char) -> bool {
    ((c as u32) < 0x20 && !cancels_sequence(c)) || (c as u32) == 0x7f || (c as u32) >= 0x80
}

/// The first position from `j` on whose character does not keep the escape waiting.
pub open spec fn skip_waiting(s: Seq<char>, j: int) -> int
    decreases s.len() - j,
{
    if 0 <= j < s.len() && escape_waits(s[j]) {
        skip_waiting(s, j + 1)
    } else {
        j
    }
}

/// Whether the control sequence read from position `j` on leaves the escape parser with a
/// parameter whose count was never set when it closes with `m`, the one final byte that
/// makes skim read the parameters.
///
/// `phase` is where the sequence stands: 0 before any parameter byte, 1 among the
/// parameters, 2 among the intermediates. `seps` counts the separators kept, at most 32,
/// the parser's limit; `last_colon` says whether the 32nd was a colon, which leaves the
/// last parameter open when the list is full.
pub open spec fn csi_breaks(s: Seq<char>, j: int, phase: int, seps: nat, last_colon: bool) -> bool
    decreases s.len() - j,
{
    if j < 0 || j >= s.len() || cancels_sequence(s[j]) {
        false
    } else if is_final_byte(s[j]) {
        s[j] == 'm' && seps >= 32 && last_colon
    } else if 0x20 <= (s[j] as u32) <= 0x2f {
        csi_breaks(s, j + 1, 2, seps, last_colon)
    } else if 0x30 <= (s[j] as u32) <= 0x3f && phase == 2 {
        false
    } else if 0x3c <= (s[j] as u32) <= 0x3f {
        if phase == 0 {
            csi_breaks(s, j + 1, 1, seps, last_colon)
        } else {
            false
        }
    } else if s[j] == ';' || s[j] == ':' {
        if seps < 32 {
            csi_breaks(s, j + 1, 1, seps + 1, if seps + 1 == 32 { s[j] == ':' } else { last_colon })
        } else {
            csi_breaks(s, j + 1, 1, seps, last_colon)
        }
    } else if 0x30 <= (s[j] as u32) <= 0x39 {
        csi_breaks(s, j + 1, 1, seps, last_colon)
    } else {
        csi_breaks(s, j + 1, phase, seps, last_colon)
    }
}

/// Whether the escape at position `i` opens a control sequence that breaks the parser.
pub open spec fn escape_breaks(s: Seq<char>, i: int) -> bool {
    &&& 0 <= i < s.len()
    &&& s[i] == '\x1b'
    &&& skip_waiting(s, i + 1) < s.len()
    &&& s[skip_waiting(s, i + 1)] == '['
    &&& csi_breaks(s, skip_waiting(s, i + 1) + 1, 0, 0, false)
}

/// skim's escape parser reads `s` without meeting a parameter whose count was never set.
pub open spec fn ansi_parses(s: Seq<char>) -> bool {
    forall|i: int| 0 <= i < s.len() ==> !#[trigger] escape_breaks(s, i)
}

fn skip_waiting_exec(t: &str, j: usize) -> (r: usize)
    requires
        j <= t@.len(),
    ensures
        r as int == skip_waiting(t@, j as int),
        j <= r <= t@.len(),
{
    let n = t.unicode_len();
    let mut k = j;
    while k < n
        invariant
            n == t@.len(),
            j <= k <= n,
            skip_waiting(t@, j as int) == skip_waiting(t@, k as int),
        decreases n - k,
    {
        let v = t.get_char(k) as u32;
        if !((v < 0x20 && v != 0x18 && v != 0x1a && v != 0x1b) || v == 0x7f || v >= 0x80) {
            return k;
        }
        k = k + 1;
    }
    k
}

fn csi_breaks_exec(t: &str, j: usize) -> (r: bool)
    requires
        j <= t@.len(),
    ensures
        r == csi_breaks(t@, j as int, 0, 0, false),
{
    let n = t.unicode_len();
    let mut k = j;
    let mut phase: u8 = 0;
    let mut seps: u8 = 0;
    let mut last_colon = false;
    while k < n
        invariant
            n == t@.len(),
            j <= k <= n,
            phase <= 2,
            seps <= 32,
            csi_breaks(t@, j as int, 0, 0, false) == csi_breaks(t@, k as int, phase as int, seps as nat, last_colon),
        decreases n - k,
    {
        let c = t.get_char(k);
        let v = c as u32;
        if v == 0x18 || v == 0x1a || v == 0x1b {
            return false;
        } else if 0x40 <= v && v <= 0x7e {
            return c == 'm' && seps >= 32 && last_colon;
        } else if 0x20 <= v && v <= 0x2f {
            phase = 2;
        } else if 0x30 <= v && v <= 0x3f && phase == 2 {
            return false;
        } else if 0x3c <= v && v <= 0x3f {
            if phase == 0 {
                phase = 1;
            } else {
                return false;
            }
        } else if c == ';' || c == ':' {
            if seps < 32 {
                seps = seps + 1;
                if seps == 32 {
                    last_colon = c == ':';
                }
            }
            phase = 1;
        } else if 0x30 <= v && v <= 0x39 {
            phase = 1;
        }
        k = k + 1;
    }
    false
}

/// Whether skim's escape parser reads `s` without fault, as `ansi_parses` states.
pub fn ansi_parses_exec(s: &String) -> (r: bool)
    ensures
        r == ansi_parses(s@),
{
    let t = s.as_str();
    let n = t.unicode_len();
    let mut i: usize = 0;
    while i < n
        invariant
            n == s@.len(),
            t@ == s@,
            i <= n,
            forall|x: int| 0 <= x < i ==> !#[trigger] escape_breaks(s@, x),
        decreases n - i,
    {
        if t.get_char(i) == '\x1b' {
            let k = skip_waiting_exec(t, i + 1);
            if k < n && t.get_char(k) == '[' {
                if csi_breaks_exec(t, k + 1) {
                    assert(escape_breaks(s@, i as int));
                    return false;
                }
            }
        }
        i = i + 1;
    }
    true
}

/// Relies on skim's `AnsiString::parse` followed by `into_inner`: the text with its
/// escape sequences removed, which depends on the text alone. For an `m` sequence skim
/// reads the first value of each parameter; when the parser's list of 32 is filled by a
/// colon, the last parameter's count is never set and that read can fail, so such texts
/// are left out.
#[verifier::external_body]
fn strip_ansi(s: &String) -> (r: String)
    requires
        ansi_parses(s@),
    ensures
        r@ == ansi_stripped(s@),
{
    skim::AnsiString::parse(s.as_str()).into_inner().into_owned()
}

/// Relies on `str::trim`: the text without leading and trailing whitespace, which
/// depends on the text alone; an empty text stays empty.
#[verifier::external_body]
fn trim_str(s: &String) -> (r: String)
    ensures
        r@ == trimmed(s@),
        s@.len() == 0 ==> r@.len() == 0,
{
    s.trim().to_owned()
}

/// Searchable annotation information.
pub struct SearchAnnotation {
    /// Annotation ID
    pub id: String,
    /// Highlighted text, quote, URL, and tag information on a single line
    pub highlight: String,
    /// Text, quote, URL, and tag information in markdown format
    pub markdown: String,
}

impl SearchAnnotation {
    /// The line that the search matches against: the highlight line without colours.
    pub fn text(&self) -> (r: String)
        requires
            ansi_parses(self.highlight@),
        ensures
            r@ == ansi_stripped(self.highlight@),
    {
        strip_ansi(&self.highlight)
    }

    /// The shell command that renders the markdown of this annotation in the preview pane.
    pub fn preview(&self) -> (r: String)
        ensures
            r@ == "echo \""@ + self.markdown@ + "\" | bat -l markdown --color=always -p"@,
    {
        let mut r = String::from_str("echo \"");
        r.append(self.markdown.as_str());
        r.append("\" | bat -l markdown --color=always -p");
        r
    }
}

/// How the user closed a search window.
#[derive(PartialEq, Eq, Structural, Clone, Copy, Debug)]
pub enum Gesture {
    /// Enter: add tags to the selection
    Accept,
    /// Add tags to the selection
    AddTag,
    /// Shift-Left: remove tags from the selection
    RemoveTag,
    /// Shift-Right: delete the selected annotations
    Delete,
    /// Shift-Up: print the set of URIs of the selection
    Export,
    /// Esc or Ctrl-C: do nothing
    Abort,
}

/// The comma-separated pieces of `s`, in order; a text without commas is one piece.
pub open spec fn split_commas(s: Seq<char>) -> Seq<Seq<char>>
    decreases s.len(),
{
    if s.len() == 0 {
        seq![Seq::<char>::empty()]
    } else {
        let r = split_commas(s.drop_last());
        if s.last() == ',' {
            r.push(Seq::<char>::empty())
        } else {
            r.update(r.len() - 1, r.last().push(s.last()))
        }
    }
}

/// The texts held by a list of strings.
pub open spec fn texts(v: Seq<String>) -> Seq<Seq<char>> {
    v.map_values(|x: String| x@)
}

proof fn lemma_split_nonempty(s: Seq<char>)
    ensures
        split_commas(s).len() >= 1,
    decreases s.len(),
{
    if s.len() > 0 {
        lemma_split_nonempty(s.drop_last());
    }
}

/// Splits `q` at each comma.
pub fn split_on_commas(q: &String) -> (r: Vec<String>)
    ensures
        texts(r@) == split_commas(q@),
{
    let s = q.as_str();
    let n = s.unicode_len();
    let mut pieces: Vec<String> = Vec::new();
    let mut start: usize = 0;
    let mut i: usize = 0;
    assert(q@.subrange(0, 0) =~= Seq::<char>::empty());
    assert(texts(pieces@).push(q@.subrange(0, 0)) =~= seq![Seq::<char>::empty()]);
    while i < n
        invariant
            n == q@.len(),
            s@ == q@,
            start <= i <= n,
            split_commas(q@.subrange(0, i as int)) == texts(pieces@).push(q@.subrange(start as int, i as int)),
        decreases n - i,
    {
        let c = s.get_char(i);
        proof {
            let pre = q@.subrange(0, i as int);
            let post = q@.subrange(0, i + 1);
            assert(post.drop_last() =~= pre);
            assert(post.last() == c);
            lemma_split_nonempty(pre);
        }
        if c == ',' {
            let piece = String::from_str(s.substring_char(start, i));
            let ghost before = pieces@;
            pieces.push(piece);
            start = i + 1;
            i = i + 1;
            assert(q@.subrange(start as int, i as int) =~= Seq::<char>::empty());
            assert(texts(pieces@) =~= texts(before).push(piece@));
            assert(split_commas(q@.subrange(0, i as int)) =~= texts(pieces@).push(q@.subrange(start as int, i as int)));
        } else {
            i = i + 1;
            assert(q@.subrange(start as int, i as int) =~= q@.subrange(start as int, i - 1).push(c));
            assert(split_commas(q@.subrange(0, i as int)) =~= texts(pieces@).push(q@.subrange(start as int, i as int)));
        }
    }
    let last = String::from_str(s.substring_char(start, n));
    let ghost before = pieces@;
    pieces.push(last);
    assert(q@.subrange(0, n as int) =~= q@);
    assert(texts(pieces@) =~= texts(before).push(last@));
    pieces
}

/// The distinct non-empty texts among `pieces`.
pub fn tags_from_pieces(pieces: &Vec<String>) -> (r: Vec<String>)
    ensures
        distinct_strs(r@),
        str_set(r@) == Set::new(|t: Seq<char>| t.len() > 0 && has_str(pieces@, t)),
{
    let mut r: Vec<String> = Vec::new();
    let mut k: usize = 0;
    assert(str_set(r@) =~= Set::new(
        |t: Seq<char>| t.len() > 0 && has_str(pieces@.subrange(0, 0), t),
    ));
    while k < pieces.len()
        invariant
            k <= pieces@.len(),
            distinct_strs(r@),
            str_set(r@) == Set::new(
                |t: Seq<char>| t.len() > 0 && has_str(pieces@.subrange(0, k as int), t),
            ),
        decreases pieces@.len() - k,
    {
        if pieces[k].as_str().unicode_len() > 0 {
            push_unique(&mut r, pieces[k].clone());
        }
        proof {
            assert forall|t: Seq<char>|
                str_set(r@).contains(t) <==> (t.len() > 0 && has_str(pieces@.subrange(0, k + 1), t)) by {
                lemma_has_str_prefix(pieces@, k as int, t);
            }
        }
        k = k + 1;
        assert(str_set(r@) =~= Set::new(
            |t: Seq<char>| t.len() > 0 && has_str(pieces@.subrange(0, k as int), t),
        ));
    }
    assert(pieces@.subrange(0, k as int) =~= pieces@);
    r
}

/// The tags typed into the tag picker: the comma-separated pieces of `query`, trimmed,
/// with empty pieces and repeats left out.
pub fn adhoc_tags(query: &String) -> (r: Vec<String>)
    ensures
        distinct_strs(r@),
        str_set(r@) == Set::new(
            |t: Seq<char>|
                t.len() > 0 && exists|j: int|
                    0 <= j < split_commas(query@).len() && #[trigger] trimmed(split_commas(query@)[j]) == t,
        ),
{
    let pieces = split_on_commas(query);
    let mut cut: Vec<String> = Vec::new();
    let mut k: usize = 0;
    while k < pieces.len()
        invariant
            k <= pieces@.len(),
            cut@.len() == k,
            texts(pieces@) == split_commas(query@),
            forall|j: int| 0 <= j < k ==> #[trigger] cut@[j]@ == trimmed(pieces@[j]@),
        decreases pieces@.len() - k,
    {
        cut.push(trim_str(&pieces[k]));
        k = k + 1;
    }
    let r = tags_from_pieces(&cut);
    proof {
        let sp = split_commas(query@);
        assert(sp.len() == pieces@.len());
        assert forall|t: Seq<char>| has_str(cut@, t) <==> exists|j: int|
            0 <= j < sp.len() && #[trigger] trimmed(sp[j]) == t by {
            if has_str(cut@, t) {
                let j = choose|j: int| 0 <= j < cut@.len() && #[trigger] cut@[j]@ == t;
                assert(sp[j] == pieces@[j]@);
                assert(trimmed(sp[j]) == t);
            }
            if exists|j: int| 0 <= j < sp.len() && #[trigger] trimmed(sp[j]) == t {
                let j = choose|j: int| 0 <= j < sp.len() && #[trigger] trimmed(sp[j]) == t;
                assert(sp[j] == pieces@[j]@);
                assert(cut@[j]@ == t);
            }
        }
        assert(str_set(r@) =~= Set::new(
            |t: Seq<char>|
                t.len() > 0 && exists|j: int| 0 <= j < sp.len() && #[trigger] trimmed(sp[j]) == t,
        ));
    }
    r
}

/// The strings of `v`, each once.
pub fn distinct_copy(v: &Vec<String>) -> (r: Vec<String>)
    ensures
        distinct_strs(r@),
        str_set(r@) == str_set(v@),
{
    let mut r: Vec<String> = Vec::new();
    let mut k: usize = 0;
    assert(str_set(r@) =~= str_set(v@.subrange(0, 0)));
    while k < v.len()
        invariant
            k <= v@.len(),
            distinct_strs(r@),
            str_set(r@) == str_set(v@.subrange(0, k as int)),
        decreases v@.len() - k,
    {
        push_unique(&mut r, v[k].clone());
        proof {
            assert forall|t: Seq<char>| str_set(r@).contains(t) <==> has_str(v@.subrange(0, k + 1), t) by {
                lemma_has_str_prefix(v@, k as int, t);
            }
        }
        k = k + 1;
        assert(str_set(r@) =~= str_set(v@.subrange(0, k as int)));
    }
    assert(v@.subrange(0, k as int) =~= v@);
    r
}

/// The outcome of the tag picker. A picker closed without Enter gives no tags. Enter with
/// no tag selected, when adding, gives the tags typed into the query; otherwise Enter
/// gives the selected tags.
pub fn chosen_tags(selected: &Vec<String>, accepted: bool, query: &String, add: bool) -> (r: Vec<String>)
    ensures
        distinct_strs(r@),
        !accepted ==> r@.len() == 0,
        accepted && add && selected@.len() == 0 ==> str_set(r@) == Set::new(
            |t: Seq<char>|
                t.len() > 0 && exists|j: int|
                    0 <= j < split_commas(query@).len() && #[trigger] trimmed(split_commas(query@)[j]) == t,
        ),
        accepted && !(add && selected@.len() == 0) ==> str_set(r@) == str_set(selected@),
{
    if !accepted {
        Vec::new()
    } else if add && selected.len() == 0 {
        adhoc_tags(query)
    } else {
        distinct_copy(selected)
    }
}

/// The outcome of a search window over another group's annotations: the selected
/// identifiers when closed with Enter, none otherwise.
pub fn search_group(selected: &Vec<String>, gesture: Gesture) -> (r: Vec<String>)
    ensures
        distinct_strs(r@),
        gesture == Gesture::Accept ==> str_set(r@) == str_set(selected@),
        gesture != Gesture::Accept ==> r@.len() == 0,
{
    match gesture {
        Gesture::Accept => distinct_copy(selected),
        _ => Vec::new(),
    }
}

} // verus!
