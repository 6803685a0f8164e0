//! Where things are written: directory names for volumes and chapters, and
//! the file names of pages and covers. Paths are text with `/` separators.

use vstd::prelude::*;

use crate::text::{decimal, decimal_string};

verus! {

/// `base` with the relative path `part` appended, as a path push does.
pub open spec fn join(base: Seq<char>, part: Seq<char>) -> Seq<char> {
    if base.len() == 0 {
        part
    } else if base.last() == '/' {
        base + part
    } else {
        base + seq!['/'] + part
    }
}

/// The directory name of a volume.
pub open spec fn volume_dir_name(volume: Option<u32>) -> Seq<char> {
    "Vol. "@ + match volume {
        Some(n) => decimal(n as nat),
        None => "None"@,
    }
}

/// The view of an optional text.
pub open spec fn opt_view(t: Option<String>) -> Option<Seq<char>> {
    match t {
        Some(s) => Some(s@),
        None => None,
    }
}

/// The directory name of a chapter: its number, `.sub` for a part chapter,
/// and ` - title` when it has a title.
pub open spec fn chapter_dir_name(chapter: u32, sub: Option<u32>, title: Option<Seq<char>>) -> Seq<
    char,
> {
    "Ch. "@ + decimal(chapter as nat) + match sub {
        Some(s) => seq!['.'] + decimal(s as nat),
        None => Seq::<char>::empty(),
    } + match title {
        Some(t) => " - "@ + t,
        None => Seq::<char>::empty(),
    }
}

/// Whether an optional text is present and reads `p`.
pub open spec fn some_text_is(t: Option<String>, p: Seq<char>) -> bool {
    match t {
        Some(s) => s@ == p,
        None => false,
    }
}

/// Appends the relative path `part` to `base`.
pub fn join_path(base: &str, part: &str) -> (r: String)
    ensures
        r@ == join(base@, part@),
{
    let mut s = String::new();
    s.append(base);
    let n = base.unicode_len();
    if n > 0 && base.get_char(n - 1) != '/' {
        s.append("/");
        proof {
            reveal_strlit("/");
        }
    }
    s.append(part);
    s
}

/// The directory name of a volume: `Vol. n`, or `Vol. None`.
pub fn volume_dir(volume: Option<u32>) -> (r: String)
    ensures
        r@ == volume_dir_name(volume),
{
    let mut s = String::new();
    s.append("Vol. ");
    match volume {
        Some(n) => {
            let d = decimal_string(n as u64);
            s.append(d.as_str());
        },
        None => s.append("None"),
    }
    s
}

/// The directory name of a chapter: `Ch. n[.sub][ - title]`.
pub fn chapter_dir(chapter: u32, sub: Option<u32>, title: &Option<String>) -> (r: String)
    ensures
        r@ == chapter_dir_name(chapter, sub, opt_view(*title)),
{
    let mut s = String::new();
    s.append("Ch. ");
    let d = decimal_string(chapter as u64);
    s.append(d.as_str());
    if let Some(part) = sub {
        s.append(".");
        let p = decimal_string(part as u64);
        s.append(p.as_str());
        proof {
            reveal_strlit(".");
        }
    }
    if let Some(t) = title {
        s.append(" - ");
        s.append(t.as_str());
    }
    s
}

/// The text `{title}`.
pub open spec fn placeholder() -> Seq<char> {
    seq!['{', 't', 'i', 't', 'l', 'e', '}']
}

/// `template` with each `{title}` in it, from left to right, replaced by
/// `title`.
pub open spec fn substitute_title(template: Seq<char>, title: Seq<char>) -> Seq<char>
    decreases template.len(),
{
    if template.len() == 0 {
        Seq::<char>::empty()
    } else if template.len() >= 7 && template.take(7) == placeholder() {
        title + substitute_title(template.skip(7), title)
    } else {
        seq![template[0]] + substitute_title(template.skip(1), title)
    }
}

/// Whether `{title}` stands in `s` at `i`.
fn placeholder_at(s: &str, i: usize, n: usize) -> (r: bool)
    requires
        n == s@.len(),
        i <= n,
    ensures
        r == (n - i >= 7 && s@.skip(i as int).take(7) == placeholder()),
{
    if n - i < 7 {
        return false;
    }
    let r = s.get_char(i) == '{' && s.get_char(i + 1) == 't' && s.get_char(i + 2) == 'i'
        && s.get_char(i + 3) == 't' && s.get_char(i + 4) == 'l' && s.get_char(i + 5) == 'e'
        && s.get_char(i + 6) == '}';
    assert(r ==> s@.skip(i as int).take(7) =~= placeholder());
    assert(s@.skip(i as int).take(7) == placeholder() ==> r) by {
        if s@.skip(i as int).take(7) == placeholder() {
            assert forall|k: int| 0 <= k < 7 implies s@[i + k] == placeholder()[k] by {
                assert(s@.skip(i as int).take(7)[k] == s@[i + k]);
            }
        }
    }
    r
}

/// The output root: `template` with each `{title}` replaced by `title`.
pub fn substitute_title_in(template: &str, title: &str) -> (r: String)
    ensures
        r@ == substitute_title(template@, title@),
{
    let n = template.unicode_len();
    let mut out = String::new();
    let mut i: usize = 0;
    assert(template@.skip(0) =~= template@);
    assert(out@ + substitute_title(template@, title@) =~= substitute_title(template@, title@));
    while i < n
        invariant
            i <= n == template@.len(),
            substitute_title(template@, title@) == out@ + substitute_title(
                template@.skip(i as int),
                title@,
            ),
        decreases n - i,
    {
        let ghost rest = template@.skip(i as int);
        if placeholder_at(template, i, n) {
            assert(rest.skip(7) =~= template@.skip(i + 7));
            out.append(title);
            i = i + 7;
        } else {
            let c = template.substring_char(i, i + 1);
            assert(c@ =~= seq![rest[0]]);
            assert(rest.skip(1) =~= template@.skip(i + 1));
            out.append(c);
            i = i + 1;
        }
        assert(out@ + substitute_title(template@.skip(i as int), title@) =~= substitute_title(
            template@,
            title@,
        ));
    }
    assert(template@.skip(i as int) =~= Seq::<char>::empty());
    assert(out@ + Seq::<char>::empty() =~= out@);
    out
}

/// The last index below `hi` where `c` stands in `s`, or -1.
pub open spec fn last_index_before(s: Seq<char>, c: char, hi: int) -> int
    decreases hi,
{
    if hi <= 0 || hi > s.len() {
        -1
    } else if s[hi - 1] == c {
        hi - 1
    } else {
        last_index_before(s, c, hi - 1)
    }
}

/// The extension of a file name with its dot, or nothing: the text from the
/// last `.` of the name's final component on, when that dot neither begins
/// the component nor ends the name.
pub open spec fn extension_suffix(name: Seq<char>) -> Seq<char> {
    let base = last_index_before(name, '/', name.len() as int) + 1;
    let dot = last_index_before(name, '.', name.len() as int);
    if base < dot && dot + 1 < name.len() {
        name.subrange(dot, name.len() as int)
    } else {
        Seq::<char>::empty()
    }
}

/// `digits` with zeros put before it up to `width` characters.
pub open spec fn zero_pad(digits: Seq<char>, width: nat) -> Seq<char> {
    if digits.len() >= width {
        digits
    } else {
        Seq::new((width - digits.len()) as nat, |i: int| '0') + digits
    }
}

/// The name of page `ordinal` of a chapter of `total` pages: the ordinal
/// padded with zeros to as many digits as `total` has, then the extension of
/// the name the server gave the page.
pub open spec fn page_file_name_of(ordinal: nat, total: nat, remote: Seq<char>) -> Seq<char> {
    zero_pad(decimal(ordinal), decimal(total).len()) + extension_suffix(remote)
}

/// The name of a volume's cover number `index`, with the extension of the
/// name the server gave it.
pub open spec fn cover_file_name_of(index: nat, remote: Seq<char>) -> Seq<char> {
    "cover"@ + decimal(index) + extension_suffix(remote)
}

fn last_index(s: &str, c: char, n: usize) -> (r: Option<usize>)
    requires
        n == s@.len(),
    ensures
        match r {
            Some(k) => k == last_index_before(s@, c, n as int),
            None => last_index_before(s@, c, n as int) == -1,
        },
{
    let mut hi = n;
    while hi > 0
        invariant
            hi <= n == s@.len(),
            last_index_before(s@, c, n as int) == last_index_before(s@, c, hi as int),
        decreases hi,
    {
        if s.get_char(hi - 1) == c {
            return Some(hi - 1);
        }
        hi = hi - 1;
    }
    None
}

proof fn lemma_last_index_bounds(s: Seq<char>, c: char, hi: int)
    ensures
        last_index_before(s, c, hi) == -1 || (0 <= last_index_before(s, c, hi) < hi && hi
            <= s.len()),
    decreases hi,
{
    if 0 < hi <= s.len() && s[hi - 1] != c {
        lemma_last_index_bounds(s, c, hi - 1);
    }
}

/// Appends the extension of the file name `remote`, with its dot, to `s`.
fn append_extension(s: &mut String, remote: &str)
    ensures
        final(s)@ == old(s)@ + extension_suffix(remote@),
{
    let n = remote.unicode_len();
    proof {
        lemma_last_index_bounds(remote@, '/', n as int);
        lemma_last_index_bounds(remote@, '.', n as int);
    }
    let base = match last_index(remote, '/', n) {
        Some(k) => k + 1,
        None => 0,
    };
    match last_index(remote, '.', n) {
        Some(dot) => {
            if base < dot && dot + 1 < n {
                let ext = remote.substring_char(dot, n);
                s.append(ext);
            } else {
                assert(s@ =~= old(s)@ + Seq::<char>::empty());
            }
        },
        None => {
            assert(s@ =~= old(s)@ + Seq::<char>::empty());
        },
    }
}

/// The file name for page `ordinal` of a chapter of `total` pages.
pub fn page_file_name(ordinal: u64, total: u64, remote: &str) -> (r: String)
    ensures
        r@ == page_file_name_of(ordinal as nat, total as nat, remote@),
{
    let digits = decimal_string(ordinal);
    let width = decimal_string(total).unicode_len();
    let len = digits.unicode_len();
    let mut s = String::new();
    let mut k: usize = len;
    while k < width
        invariant
            len == digits@.len(),
            width >= len ==> k <= width,
            width < len ==> k == len,
            k >= len,
            s@ == Seq::new((k - len) as nat, |i: int| '0'),
        decreases width - k,
    {
        proof {
            reveal_strlit("0");
        }
        s.append("0");
        assert(s@ =~= Seq::new((k + 1 - len) as nat, |i: int| '0'));
        k = k + 1;
    }
    s.append(digits.as_str());
    assert(s@ =~= zero_pad(decimal(ordinal as nat), decimal(total as nat).len()));
    append_extension(&mut s, remote);
    s
}

/// The file name for a volume's cover number `index`.
pub fn cover_file_name(index: u64, remote: &str) -> (r: String)
    ensures
        r@ == cover_file_name_of(index as nat, remote@),
{
    let mut s = String::new();
    s.append("cover");
    let digits = decimal_string(index);
    s.append(digits.as_str());
    append_extension(&mut s, remote);
    s
}

} // verus!
