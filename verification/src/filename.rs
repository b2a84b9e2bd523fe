//! Extension stripping: extracting the final path component and repeatedly
//! removing recognized trailing extensions, mirroring how the standard
//! library's path type picks file names, stems, and extensions apart.

use vstd::prelude::*;
use vstd::string::StrSliceExecFns;
use crate::unicode::{lower_of, to_lower_str, chars_vec, string_from_chars};

verus! {

/// The text with every trailing `/` removed.
pub open spec fn rstrip_slashes(s: Seq<char>) -> Seq<char>
    decreases s.len(),
{
    if s.len() > 0 && s.last() == '/' {
        rstrip_slashes(s.drop_last())
    } else {
        s
    }
}

/// The index just past the last `/` of `s`, or 0 when there is none.
pub open spec fn last_comp_start(s: Seq<char>) -> int
    decreases s.len(),
{
    if s.len() == 0 {
        0
    } else if s.last() == '/' {
        s.len() as int
    } else {
        last_comp_start(s.drop_last())
    }
}

proof fn lemma_last_comp_start_range(s: Seq<char>)
    ensures
        0 <= last_comp_start(s) <= s.len(),
    decreases s.len(),
{
    if s.len() == 0 {
    } else if s.last() == '/' {
    } else {
        lemma_last_comp_start_range(s.drop_last());
    }
}

proof fn lemma_rstrip_len(s: Seq<char>)
    ensures
        rstrip_slashes(s).len() <= s.len(),
    decreases s.len(),
{
    if s.len() > 0 && s.last() == '/' {
        lemma_rstrip_len(s.drop_last());
    }
}

/// The final path component, as the standard path type names files: trailing
/// slashes and trailing `.` components are dropped, a final `..` component
/// yields nothing.
pub open spec fn component_of(s: Seq<char>) -> Seq<char>
    decreases s.len(),
{
    let t = rstrip_slashes(s);
    if t.len() == 0 {
        Seq::empty()
    } else {
        let i = last_comp_start(t);
        let comp = t.subrange(i, t.len() as int);
        if comp =~= seq!['.'] {
            if t.subrange(0, i).len() < s.len() {
                component_of(t.subrange(0, i))
            } else {
                Seq::empty()
            }
        } else if comp =~= seq!['.', '.'] {
            Seq::empty()
        } else {
            comp
        }
    }
}

/// The index of the last `.` of `s`, or -1 when there is none.
pub open spec fn last_dot(s: Seq<char>) -> int
    decreases s.len(),
{
    if s.len() == 0 {
        -1
    } else if s.last() == '.' {
        s.len() - 1
    } else {
        last_dot(s.drop_last())
    }
}

proof fn lemma_last_dot_range(s: Seq<char>)
    ensures
        -1 <= last_dot(s) < s.len(),
    decreases s.len(),
{
    if s.len() == 0 {
    } else if s.last() == '.' {
    } else {
        lemma_last_dot_range(s.drop_last());
    }
}

/// The stem of a file name, and its extension if it has one: the extension is
/// what follows the last `.`, except that a name without an embedded `.`, a
/// name whose only `.` leads it, and the special name `..` have none.
pub open spec fn split_ext(f: Seq<char>) -> (Seq<char>, Option<Seq<char>>) {
    if f =~= seq!['.', '.'] {
        (f, None)
    } else {
        let ld = last_dot(f);
        if ld <= 0 {
            (f, None)
        } else {
            (f.subrange(0, ld), Some(f.subrange(ld + 1, f.len() as int)))
        }
    }
}

/// The recognized extensions: program, installer, and non-binary extensions,
/// all lowercase.
pub open spec fn ext_table() -> Seq<Seq<char>> {
    seq![
        ("air")@,
        ("swf")@,
        ("jar")@,
        ("sh")@,
        ("py")@,
        ("pl")@,
        ("exe")@,
        ("bat")@,
        ("cmd")@,
        ("pif")@,
        ("bin")@,
        ("desktop")@,
        ("love")@,
        ("nes")@,
        ("7z")@,
        ("zip")@,
        ("rar")@,
        ("tar")@,
        ("gz")@,
        ("tgz")@,
        ("bz2")@,
        ("tbz2")@,
        ("xz")@,
        ("txz")@,
        ("sh")@,
        ("run")@,
        ("bin")@,
        ("deb")@,
        ("rpm")@,
        ("msi")@,
        ("dll")@,
        ("so")@,
        ("dso")@,
        ("shlib")@,
        ("o")@,
        ("dylib")@,
        ("ini")@,
        ("xml")@,
        ("txt")@,
        ("assets")@,
        ("u")@,
        ("frag")@,
        ("vert")@,
        ("fxg")@,
        ("xnb")@,
        ("xsb")@,
        ("xwb")@,
        ("xgs")@,
        ("usf")@,
        ("msf")@,
        ("asi")@,
        ("fsb")@,
        ("fev")@,
        ("mdd")@,
        ("lbx")@,
        ("zmp")@,
        ("as")@,
        ("cpp")@,
        ("c")@,
        ("h")@,
        ("java")@,
        ("ogg")@,
        ("mp3")@,
        ("wav")@,
        ("spc")@,
        ("mid")@,
        ("midi")@,
        ("rmi")@,
        ("png")@,
        ("bmp")@,
        ("gif")@,
        ("jpg")@,
        ("jpeg")@,
        ("svg")@,
        ("tga")@,
        ("pcx")@,
        ("pdf")@,
        ("ttf")@,
        ("crt")@,
        ("dl_")@,
        ("sc_")@,
        ("ex_")@,
        ("app")@,
    ]
}

/// Whether a (lowercased) extension is recognized.
pub open spec fn recognized_ext(e: Seq<char>) -> bool {
    ext_table().contains(e)
}

/// Whether the text equals the given string.
fn chars_eq_str(a: &Vec<char>, b: &str) -> (r: bool)
    ensures
        r == (a@ == b@),
{
    let n = b.unicode_len();
    if a.len() != n {
        return false;
    }
    let mut i: usize = 0;
    while i < n
        invariant
            0 <= i <= n,
            n == b@.len(),
            a@.len() == n,
            forall|j: int| 0 <= j < i ==> a@[j] == b@[j],
        decreases n - i,
    {
        if a[i] != b.get_char(i) {
            return false;
        }
        i = i + 1;
    }
    proof {
        assert(a@ =~= b@);
    }
    true
}

/// Decide whether a lowercased extension is in the recognized table.
fn is_recognized_ext(e: &Vec<char>) -> (b: bool)
    ensures
        b == recognized_ext(e@),
{
    let table: Vec<&'static str> = vec![
        "air",
        "swf",
        "jar",
        "sh",
        "py",
        "pl",
        "exe",
        "bat",
        "cmd",
        "pif",
        "bin",
        "desktop",
        "love",
        "nes",
        "7z",
        "zip",
        "rar",
        "tar",
        "gz",
        "tgz",
        "bz2",
        "tbz2",
        "xz",
        "txz",
        "sh",
        "run",
        "bin",
        "deb",
        "rpm",
        "msi",
        "dll",
        "so",
        "dso",
        "shlib",
        "o",
        "dylib",
        "ini",
        "xml",
        "txt",
        "assets",
        "u",
        "frag",
        "vert",
        "fxg",
        "xnb",
        "xsb",
        "xwb",
        "xgs",
        "usf",
        "msf",
        "asi",
        "fsb",
        "fev",
        "mdd",
        "lbx",
        "zmp",
        "as",
        "cpp",
        "c",
        "h",
        "java",
        "ogg",
        "mp3",
        "wav",
        "spc",
        "mid",
        "midi",
        "rmi",
        "png",
        "bmp",
        "gif",
        "jpg",
        "jpeg",
        "svg",
        "tga",
        "pcx",
        "pdf",
        "ttf",
        "crt",
        "dl_",
        "sc_",
        "ex_",
        "app",
    ];
    proof {
        assert(table@.map_values(|v: &str| v@) =~= ext_table());
    }
    let mut i: usize = 0;
    while i < table.len()
        invariant
            0 <= i <= table@.len(),
            table@.map_values(|v: &str| v@) == ext_table(),
            forall|j: int| 0 <= j < i ==> ext_table()[j] != e@,
        decreases table@.len() - i,
    {
        if chars_eq_str(e, table[i]) {
            proof {
                assert(ext_table()[i as int] == e@);
            }
            return true;
        }
        i = i + 1;
    }
    proof {
        assert(!ext_table().contains(e@));
    }
    false
}

/// What remains of a bare file name once the path type has named it: the
/// special components `.` and `..` name no file.
pub open spec fn base_name(f: Seq<char>) -> Seq<char> {
    if f =~= seq!['.'] || f =~= seq!['.', '.'] {
        Seq::empty()
    } else {
        f
    }
}

/// The file name with recognized trailing extensions repeatedly stripped:
/// stop at the first unrecognized extension (comparison is against the
/// lowercased extension).
pub open spec fn strip_exts(f: Seq<char>) -> Seq<char>
    decreases f.len(),
{
    let se = split_ext(f);
    if se.1 is Some && recognized_ext(lower_of(se.1->0)) && se.0.len() < f.len() {
        strip_exts(se.0)
    } else {
        base_name(f)
    }
}

/// Extract the final path component as a character vector.
fn last_component_vec(v: Vec<char>) -> (r: Vec<char>)
    ensures
        r@ == component_of(v@),
    decreases v@.len(),
{
    let ghost s = v@;
    let mut end: usize = v.len();
    proof {
        assert(v@.take(v@.len() as int) =~= v@);
    }
    while end > 0 && v[end - 1] == '/'
        invariant
            0 <= end <= v@.len(),
            rstrip_slashes(v@) == rstrip_slashes(v@.take(end as int)),
        decreases end,
    {
        proof {
            assert(v@.take(end as int).last() == v@[end as int - 1]);
            assert(v@.take(end as int).drop_last() =~= v@.take(end as int - 1));
        }
        end = end - 1;
    }
    proof {
        if end > 0 {
            assert(v@.take(end as int).last() == v@[end as int - 1]);
        }
        assert(rstrip_slashes(v@) == v@.take(end as int));
    }
    if end == 0 {
        proof {
            assert(v@.take(0int) =~= Seq::<char>::empty());
        }
        return Vec::new();
    }
    let ghost t = v@.take(end as int);
    let mut i: usize = end;
    proof {
        assert(t.take(end as int) =~= t);
    }
    while i > 0 && v[i - 1] != '/'
        invariant
            0 <= i <= end,
            end <= v@.len(),
            t == v@.take(end as int),
            last_comp_start(t) == last_comp_start(t.take(i as int)),
        decreases i,
    {
        proof {
            assert(t.take(i as int).last() == v@[i as int - 1]);
            assert(t.take(i as int).drop_last() =~= t.take(i as int - 1));
        }
        i = i - 1;
    }
    proof {
        if i > 0 {
            assert(t.take(i as int).last() == v@[i as int - 1]);
            assert(last_comp_start(t.take(i as int)) == i);
        } else {
            assert(t.take(0int) =~= Seq::<char>::empty());
        }
        assert(last_comp_start(t) == i);
    }
    let mut comp: Vec<char> = Vec::new();
    let mut j: usize = i;
    while j < end
        invariant
            i <= j <= end,
            end <= v@.len(),
            comp@ =~= v@.subrange(i as int, j as int),
        decreases end - j,
    {
        let c = v[j];
        comp.push(c);
        j = j + 1;
    }
    proof {
        assert(comp@ =~= t.subrange(i as int, t.len() as int));
    }
    if comp.len() == 1 && comp[0] == '.' {
        let mut pre: Vec<char> = Vec::new();
        let mut j2: usize = 0;
        while j2 < i
            invariant
                0 <= j2 <= i,
                i < end <= v@.len(),
                pre@ =~= v@.subrange(0, j2 as int),
            decreases i - j2,
        {
            let c = v[j2];
            pre.push(c);
            j2 = j2 + 1;
        }
        proof {
            assert(comp@ =~= seq!['.']);
            assert(pre@ =~= t.subrange(0, i as int));
            assert(t.subrange(0, i as int).len() < v@.len());
        }
        last_component_vec(pre)
    } else if comp.len() == 2 && comp[0] == '.' && comp[1] == '.' {
        proof {
            assert(comp@ =~= seq!['.', '.']);
        }
        Vec::new()
    } else {
        proof {
            assert(!(comp@ =~= seq!['.']));
            assert(!(comp@ =~= seq!['.', '.']));
        }
        comp
    }
}

/// Strip recognized trailing extensions from a bare file name.
fn strip_exts_vec(name: Vec<char>) -> (r: Vec<char>)
    ensures
        r@ == strip_exts(name@),
    decreases name@.len(),
{
    let is_dotdot = name.len() == 2 && name[0] == '.' && name[1] == '.';
    let is_dot = name.len() == 1 && name[0] == '.';
    proof {
        if is_dotdot {
            assert(name@ =~= seq!['.', '.']);
        } else {
            assert(!(name@ =~= seq!['.', '.']));
        }
        if is_dot {
            assert(name@ =~= seq!['.']);
        } else {
            assert(!(name@ =~= seq!['.']));
        }
    }
    if is_dotdot || is_dot {
        return Vec::new();
    }
    // find the last '.'
    let mut i: usize = name.len();
    proof {
        assert(name@.take(name@.len() as int) =~= name@);
    }
    while i > 0 && name[i - 1] != '.'
        invariant
            0 <= i <= name@.len(),
            last_dot(name@) == last_dot(name@.take(i as int)),
        decreases i,
    {
        proof {
            assert(name@.take(i as int).last() == name@[i as int - 1]);
            assert(name@.take(i as int).drop_last() =~= name@.take(i as int - 1));
        }
        i = i - 1;
    }
    proof {
        if i > 0 {
            assert(name@.take(i as int).last() == name@[i as int - 1]);
            assert(last_dot(name@.take(i as int)) == i - 1);
        } else {
            assert(name@.take(0int) =~= Seq::<char>::empty());
        }
        assert(last_dot(name@) == i - 1);
    }
    if i <= 1 {
        // no dot, or only a leading dot: no extension to strip
        return name;
    }
    let ld = i - 1;
    let mut ext: Vec<char> = Vec::new();
    let mut j: usize = ld + 1;
    while j < name.len()
        invariant
            ld + 1 <= j <= name@.len(),
            ext@ =~= name@.subrange(ld as int + 1, j as int),
        decreases name@.len() - j,
    {
        let c = name[j];
        ext.push(c);
        j = j + 1;
    }
    let ext_str = string_from_chars(&ext);
    let low = to_lower_str(ext_str.as_str());
    let lowv = chars_vec(low.as_str());
    proof {
        assert(ext@ =~= name@.subrange(ld as int + 1, name@.len() as int));
        assert(lowv@ == lower_of(split_ext(name@).1->0));
    }
    if is_recognized_ext(&lowv) {
        let mut stem: Vec<char> = Vec::new();
        let mut j2: usize = 0;
        while j2 < ld
            invariant
                0 <= j2 <= ld,
                ld < name@.len(),
                stem@ =~= name@.subrange(0, j2 as int),
            decreases ld - j2,
        {
            let c = name[j2];
            stem.push(c);
            j2 = j2 + 1;
        }
        proof {
            assert(stem@ =~= split_ext(name@).0);
        }
        strip_exts_vec(stem)
    } else {
        name
    }
}

/// Strip recognized extensions without over-stripping when periods are used
/// in other ways: take the final path component and repeatedly remove a
/// trailing `.ext` while the lowercased `ext` is recognized.
pub fn filename_extensionless(path: &str) -> (r: String)
    ensures
        r@ == strip_exts(component_of(path@)),
{
    let v = chars_vec(path);
    let comp = last_component_vec(v);
    let stripped = strip_exts_vec(comp);
    string_from_chars(&stripped)
}

} // verus!
