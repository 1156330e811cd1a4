use vstd::prelude::*;
use vstd::string::StringSliceAdditionalSpecFns;

use crate::hexfile::{HexFile, SegView};
use crate::params::piece;
use crate::range::{unquote_back, unquote_front};
use crate::text::{find_line_end, is_space, is_ws, line_end, trim, trim_bounds};

verus! {

/// One command of a log script.
#[derive(Debug, Clone, PartialEq, Eq)]
pub enum LogCommandKind {
    /// Load a file in place of the image.
    FileOpen(String),
    /// Replace the image with an empty one.
    FileClose,
    /// Replace the image with an empty one.
    FileNew,
}

#[derive(Debug, Clone, PartialEq, Eq)]
pub struct LogCommand {
    /// Line number, from 1.
    pub line: usize,
    pub kind: LogCommandKind,
}

/// Why a log script failed.
#[derive(Debug, Clone, PartialEq, Eq)]
pub enum LogError {
    MissingFilename { line: usize },
    UnsupportedCommand { command: String, line: usize },
    Load { line: usize, source: String },
}

/// A command as the script text gives it.
pub enum LogSpec {
    Open(Seq<u8>),
    Close,
    New,
}

/// A fault of a script text: the line and whether a file name was missing.
pub enum LogFault {
    MissingFilename(int),
    Unsupported(int),
    Text(int),
}

pub open spec fn upper(c: u8) -> u8 {
    if 0x61 <= c <= 0x7A { (c - 0x20) as u8 } else { c }
}

/// Case-insensitive equality with an upper-case word.
pub open spec fn same_word(a: Seq<u8>, upper_word: Seq<u8>) -> bool {
    a.len() == upper_word.len() && forall|i: int| 0 <= i < a.len() ==> #[trigger] upper(a[i]) == upper_word[i]
}

pub open spec fn first_ws(l: Seq<u8>, p: int) -> int
    decreases l.len() - p,
{
    if p >= l.len() {
        l.len() as int
    } else if is_ws(l[p]) {
        p
    } else {
        first_ws(l, p + 1)
    }
}

pub open spec fn word_fileopen() -> Seq<u8> {
    seq![0x46u8, 0x49, 0x4C, 0x45, 0x4F, 0x50, 0x45, 0x4E]
}

pub open spec fn word_fileclose() -> Seq<u8> {
    seq![0x46u8, 0x49, 0x4C, 0x45, 0x43, 0x4C, 0x4F, 0x53, 0x45]
}

pub open spec fn word_filenew() -> Seq<u8> {
    seq![0x46u8, 0x49, 0x4C, 0x45, 0x4E, 0x45, 0x57]
}

/// The command of one trimmed, non-empty line.
pub open spec fn log_line(line: int, l: Seq<u8>) -> Result<LogSpec, LogFault> {
    let k = first_ws(l, 0);
    let cmd = l.subrange(0, k);
    let rest = trim(l.subrange(k, l.len() as int));
    if same_word(cmd, word_fileopen()) {
        if rest.len() == 0 {
            Err(LogFault::MissingFilename(line))
        } else {
            Ok(LogSpec::Open(unquote_back(unquote_front(rest))))
        }
    } else if same_word(cmd, word_fileclose()) {
        Ok(LogSpec::Close)
    } else if same_word(cmd, word_filenew()) {
        Ok(LogSpec::New)
    } else {
        Err(LogFault::Unsupported(line))
    }
}

/// The commands of the lines from byte `p` on.
pub open spec fn log_from(s: Seq<u8>, p: int, line: int) -> Result<Seq<(int, LogSpec)>, LogFault>
    decreases s.len() - p,
{
    if p >= s.len() || p < 0 {
        Ok(seq![])
    } else {
        let e = line_end(s, p);
        let l = trim(s.subrange(p, e));
        let rest = if e < p || e >= s.len() { Ok(seq![]) } else { log_from(s, e + 1, line + 1) };
        if l.len() == 0 {
            rest
        } else {
            match log_line(line, l) {
                Err(f) => Err(f),
                Ok(c) => match rest {
                    Err(f) => Err(f),
                    Ok(cs) => Ok(seq![(line, c)] + cs),
                },
            }
        }
    }
}

/// A command as the parser returns it, seen as text.
pub open spec fn command_view(c: LogCommand) -> (int, LogSpec) {
    (c.line as int, match c.kind {
        LogCommandKind::FileOpen(p) => LogSpec::Open(vstd::utf8::encode_utf8(p@)),
        LogCommandKind::FileClose => LogSpec::Close,
        LogCommandKind::FileNew => LogSpec::New,
    })
}

pub open spec fn fault_view(e: LogError) -> LogFault {
    match e {
        LogError::MissingFilename { line } => LogFault::MissingFilename(line as int),
        LogError::UnsupportedCommand { line, .. } => LogFault::Unsupported(line as int),
        LogError::Load { line, .. } => LogFault::Text(line as int),
    }
}

fn upper_byte(c: u8) -> (r: u8)
    ensures
        r == upper(c),
{
    if c >= 0x61 && c <= 0x7A { c - 0x20 } else { c }
}

/// Whether `l` equals the upper-case word `w`, ignoring case.
pub(crate) fn is_word(l: &[u8], w: &[u8]) -> (r: bool)
    ensures
        r == same_word(l@, w@),
{
    if l.len() != w.len() {
        return false;
    }
    let mut i: usize = 0;
    while i < l.len()
        invariant
            l@.len() == w@.len(),
            i <= l@.len(),
            forall|k: int| 0 <= k < i ==> #[trigger] upper(l@[k]) == w@[k],
        decreases l@.len() - i,
    {
        if upper_byte(l[i]) != w[i] {
            return false;
        }
        i = i + 1;
    }
    true
}

/// Parses a log script: one command per non-empty line, `FileOpen <path>`
/// (quotes around the path dropped), `FileClose` or `FileNew`, the command
/// word in any case.
pub fn parse_log_commands(content: &str) -> (r: Result<Vec<LogCommand>, LogError>)
    requires
        content.spec_bytes().len() < usize::MAX,
    ensures
        log_from(content.spec_bytes(), 0, 1) matches Err(f) ==> r matches Err(e) && fault_view(e) == f,
        log_from(content.spec_bytes(), 0, 1) is Ok ==> r is Ok,
        r matches Ok(cs) ==> log_from(content.spec_bytes(), 0, 1) matches Ok(v) && v.len() == cs@.len()
            && forall|i: int| 0 <= i < v.len() ==> #[trigger] command_view(cs@[i]) == v[i],
{
    let s = content.as_bytes();
    let n = s.len();
    let mut out: Vec<LogCommand> = Vec::new();
    let mut p: usize = 0;
    let mut line: usize = 1;
    let ghost mut done: Seq<(int, LogSpec)> = seq![];
    let fo: [u8; 8] = [0x46, 0x49, 0x4C, 0x45, 0x4F, 0x50, 0x45, 0x4E];
    let fc: [u8; 9] = [0x46, 0x49, 0x4C, 0x45, 0x43, 0x4C, 0x4F, 0x53, 0x45];
    let fnw: [u8; 7] = [0x46, 0x49, 0x4C, 0x45, 0x4E, 0x45, 0x57];
    let fo_s = fo.as_slice();
    let fc_s = fc.as_slice();
    let fn_s = fnw.as_slice();
    assert(fo_s@ =~= word_fileopen());
    assert(fc_s@ =~= word_fileclose());
    assert(fn_s@ =~= word_filenew());
    while p < n
        invariant
            n == s@.len(),
            s@ == content.spec_bytes(),
            n < usize::MAX,
            p <= n,
            p == 0 || p == n || s@[p - 1] == 0x0A,
            line <= p + 1,
            fo_s@ == word_fileopen(),
            fc_s@ == word_fileclose(),
            fn_s@ == word_filenew(),
            out@.len() == done.len(),
            forall|i: int| 0 <= i < done.len() ==> #[trigger] command_view(out@[i]) == done[i],
            log_from(s@, 0, 1) == match log_from(s@, p as int, line as int) {
                Ok(rest) => Ok(done + rest),
                Err(f) => Err::<Seq<(int, LogSpec)>, LogFault>(f),
            },
        decreases n - p,
    {
        let e = find_line_end(s, p);
        let (a, b) = trim_bounds(s, p, e);
        let ghost l = s@.subrange(a as int, b as int);
        let ghost rest_spec = if e >= n { Ok(Seq::<(int, LogSpec)>::empty()) } else { log_from(s@, e + 1, line + 1) };
        if b > a {
            let mut k = a;
            while k < b && !is_space(s[k])
                invariant
                    a <= k <= b <= n,
                    n == s@.len(),
                    l == s@.subrange(a as int, b as int),
                    first_ws(l, 0) == first_ws(l, k - a),
                decreases b - k,
            {
                k = k + 1;
            }
            let cmd = &s[a..k];
            assert(cmd@ =~= l.subrange(0, first_ws(l, 0)));
            let (ra, rb) = trim_bounds(s, k, b);
            assert(s@.subrange(k as int, b as int) =~= l.subrange(k - a, l.len() as int));
            let kind = if is_word(cmd, fo_s) {
                if rb == ra {
                    return Err(LogError::MissingFilename { line });
                }
                let mut qa = ra;
                let mut qb = rb;
                while qa < qb && (s[qa] == 0x22 || s[qa] == 0x27)
                    invariant
                        ra <= qa <= qb == rb <= n,
                        qa > ra ==> (s@[qa - 1] == 0x22 || s@[qa - 1] == 0x27),
                        n == s@.len(),
                        unquote_front(s@.subrange(ra as int, rb as int)) == unquote_front(s@.subrange(qa as int, qb as int)),
                    decreases qb - qa,
                {
                    assert(s@.subrange(qa as int, qb as int).drop_first() =~= s@.subrange(qa + 1, qb as int));
                    qa = qa + 1;
                }
                let ghost front = s@.subrange(qa as int, qb as int);
                while qb > qa && (s[qb - 1] == 0x22 || s[qb - 1] == 0x27)
                    invariant
                        ra <= qa <= qb <= rb <= n,
                        qa > ra ==> (s@[qa - 1] == 0x22 || s@[qa - 1] == 0x27),
                        qb < rb ==> (s@[qb as int] == 0x22 || s@[qb as int] == 0x27),
                        n == s@.len(),
                        unquote_back(front) == unquote_back(s@.subrange(qa as int, qb as int)),
                    decreases qb - qa,
                {
                    assert(s@.subrange(qa as int, qb as int).drop_last() =~= s@.subrange(qa as int, qb - 1));
                    qb = qb - 1;
                }
                match piece(content, qa, qb) {
                    Some(path) => LogCommandKind::FileOpen(path),
                    None => {
                        proof {
                            assert(crate::params::ascii_cut(s@, qa as int));
                            assert(crate::params::ascii_cut(s@, qb as int));
                        }
                        return Err(LogError::Load { line, source: "path is not valid text".to_string() });
                    },
                }
            } else if is_word(cmd, fc_s) {
                LogCommandKind::FileClose
            } else if is_word(cmd, fn_s) {
                LogCommandKind::FileNew
            } else {
                let word = match piece(content, a, k) {
                    Some(w) => w,
                    None => String::new(),
                };
                proof {
                    assert(log_line(line as int, l) is Err);
                }
                return Err(LogError::UnsupportedCommand { command: word, line });
            };
            let c = LogCommand { line, kind };
            proof {
                assert(log_line(line as int, l) matches Ok(v) && command_view(c).1 == v);
                let ghost cv = command_view(c);
                match rest_spec {
                    Ok(rest) => {
                        assert(done + seq![cv] + rest =~= done + (seq![cv] + rest));
                    },
                    Err(_) => {},
                }
            }
            let ghost cv = command_view(c);
            out.push(c);
            proof {
                assert forall|i: int| 0 <= i < done.len() + 1 implies #[trigger] command_view(out@[i]) == (done + seq![cv])[i] by {
                    if i < done.len() {
                        assert((done + seq![cv])[i] == done[i]);
                    }
                }
                done = done + seq![cv];
            }
        }
        if e >= n {
            p = n;
        } else {
            p = e + 1;
            line = line + 1;
        }
    }
    assert(done + Seq::<(int, LogSpec)>::empty() =~= done);
    Ok(out)
}


/// Command `c` opened a file that `load` could not give, and `e` reports it
/// with the command's line and the loader's message.
pub open spec fn load_failed<F: Fn(&String) -> Result<HexFile, String>>(load: F, c: LogCommand, e: LogError) -> bool {
    match (c.kind, e) {
        (LogCommandKind::FileOpen(p), LogError::Load { line, source }) => line == c.line && load.ensures((&p,), Err::<HexFile, String>(source)),
        _ => false,
    }
}

/// The loader gave an image for every `FileOpen` of the commands.
pub open spec fn all_opened<F: Fn(&String) -> Result<HexFile, String>>(load: F, cs: Seq<LogCommand>) -> bool {
    forall|i: int| 0 <= i < cs.len() ==> #[trigger] opened(load, cs[i])
}

pub open spec fn opened<F: Fn(&String) -> Result<HexFile, String>>(load: F, c: LogCommand) -> bool {
    match c.kind {
        LogCommandKind::FileOpen(p) => exists|h: HexFile| load.ensures((&p,), Ok::<HexFile, String>(h)),
        _ => true,
    }
}

/// Runs log commands against the image: `FileOpen` replaces it with what
/// `load` returns for the path, `FileClose` and `FileNew` empty it. A load
/// failure stops the run, with the command's line.
pub fn execute_log_commands<F: Fn(&String) -> Result<HexFile, String>>(hexfile: &mut HexFile, commands: &[LogCommand], load: F) -> (r: Result<(), LogError>)
    requires
        forall|p: &String| #[trigger] load.requires((p,)),
    ensures
        r is Ok && commands@.len() == 0 ==> final(hexfile)@ == old(hexfile)@,
        r is Ok ==> all_opened(load, commands@),
        r is Ok && commands@.len() > 0 ==> match commands@.last().kind {
            LogCommandKind::FileOpen(p) => load.ensures((&p,), Ok::<HexFile, String>(*final(hexfile))),
            _ => final(hexfile)@ == Seq::<SegView>::empty(),
        },
        r matches Err(e) ==> e is Load && exists|i: int|
            0 <= i < commands@.len() && #[trigger] load_failed(load, commands@[i], e),
{
    let mut i: usize = 0;
    while i < commands.len()
        invariant
            i <= commands@.len(),
            forall|p: &String| #[trigger] load.requires((p,)),
            i == 0 ==> hexfile@ == old(hexfile)@,
            i > 0 ==> match commands@[i - 1].kind {
                LogCommandKind::FileOpen(p) => load.ensures((&p,), Ok::<HexFile, String>(*hexfile)),
                _ => hexfile@ == Seq::<SegView>::empty(),
            },
            forall|k: int| 0 <= k < i ==> #[trigger] opened(load, commands@[k]),
        decreases commands@.len() - i,
    {
        let c = &commands[i];
        match &c.kind {
            LogCommandKind::FileOpen(path) => {
                match load(path) {
                    Ok(h) => {
                        *hexfile = h;
                        assert(opened(load, commands@[i as int]));
                    },
                    Err(msg) => {
                        let e = LogError::Load { line: c.line, source: msg };
                        assert(load_failed(load, commands@[i as int], e));
                        return Err(e);
                    },
                }
            },
            LogCommandKind::FileClose | LogCommandKind::FileNew => {
                *hexfile = HexFile::new();
            },
        }
        i = i + 1;
    }
    Ok(())
}

} // verus!
