//! Menu entries, the text stream handed to a selector, and the resolution of its answer.
use vstd::prelude::*;
use crate::tag::{
    codec_fits, codec_for, is_digit, lemma_decimal_decode_prefix, lemma_tag_shape,
    lemma_ternary_decode_prefix, CodecError, TagCodec, TagFamily,
};
use crate::text::{
    chars_of, lemma_lines_prefix, lemma_lines_single, lemma_trim_end_concat, lines, push_chars,
    string_of, trim, trim_end, trim_start, trimmed,
};

verus! {

/// A named, runnable menu item.
#[derive(Clone, Debug)]
pub struct Entry {
    /// The label shown after the tag.
    pub name: String,
    /// The command run when the entry is chosen.
    pub run: String,
}

/// A separator chosen by the user, in place of the tag family's own.
#[derive(Clone, Debug)]
pub enum SeparatorSetting {
    /// No separator at all.
    Disabled,
    /// This text between tag and name.
    Custom(String),
}

/// What can go wrong in building the stream or resolving a selection.
#[derive(Clone, Debug)]
pub enum MenuError {
    /// A chosen line carries no tag and ad-hoc commands are off; it holds the trimmed line.
    InvalidChoice(String),
    /// The ternary tags cannot cover this many entries.
    EncodingCapacityExceeded(usize),
}

/// The word that turns the separator off in a configuration.
pub open spec fn disabled_word() -> Seq<char> {
    seq!['n', 'o', 'n', 'e']
}

impl SeparatorSetting {
    /// Reads a configured separator: `none` turns it off, any other text is used as it is.
    pub fn parse(s: &str) -> (r: SeparatorSetting)
        ensures
            s@ == disabled_word() ==> r is Disabled,
            s@ != disabled_word() ==> (r matches SeparatorSetting::Custom(c) && c@ == s@),
    {
        let cs = chars_of(s);
        if cs.len() == 4 && cs[0] == 'n' && cs[1] == 'o' && cs[2] == 'n' && cs[3] == 'e' {
            assert(cs@ == disabled_word());
            SeparatorSetting::Disabled
        } else {
            SeparatorSetting::Custom(string_of(cs.as_slice()))
        }
    }
}

/// The characters of an optional text.
pub open spec fn str_view(o: Option<&str>) -> Option<Seq<char>> {
    match o {
        Some(s) => Some(s@),
        None => None,
    }
}

/// The characters of an optional string.
pub open spec fn string_view(o: Option<String>) -> Option<Seq<char>> {
    match o {
        Some(s) => Some(s@),
        None => None,
    }
}

/// The separator in force: the user's own, else none where the user turned it off, else the
/// family's default.
pub open spec fn separator_spec(
    default: Option<Seq<char>>,
    setting: Option<SeparatorSetting>,
) -> Option<Seq<char>> {
    match setting {
        Some(SeparatorSetting::Custom(s)) => Some(s@),
        Some(SeparatorSetting::Disabled) => None,
        None => default,
    }
}

/// The separator in force, from the family's default and the user's setting.
pub fn resolve_separator(default: Option<&str>, setting: &Option<SeparatorSetting>) -> (r: Option<
    String,
>)
    ensures
        r is Some <==> separator_spec(str_view(default), *setting) is Some,
        r matches Some(s) ==> separator_spec(str_view(default), *setting) == Some(s@),
{
    match setting {
        Some(SeparatorSetting::Custom(s)) => Some(s.clone()),
        Some(SeparatorSetting::Disabled) => None,
        None => match default {
            Some(d) => {
                let mut r = String::new();
                push_chars(&mut r, d);
                Some(r)
            },
            None => None,
        },
    }
}

/// The names of `entries`, in order.
pub open spec fn names_of(entries: Seq<Entry>) -> Seq<Seq<char>> {
    entries.map_values(|e: Entry| e.name@)
}

/// The commands of `entries`, in order.
pub open spec fn runs_of(entries: Seq<Entry>) -> Seq<Seq<char>> {
    entries.map_values(|e: Entry| e.run@)
}

/// The characters of a separator, none where there is none.
pub open spec fn sep_chars(sep: Option<Seq<char>>) -> Seq<char> {
    match sep {
        Some(s) => s,
        None => Seq::<char>::empty(),
    }
}

/// The line of the entry at index `i` named `name`, line feed included.
pub open spec fn line_spec(c: TagCodec, sep: Option<Seq<char>>, i: nat, name: Seq<char>) -> Seq<
    char,
> {
    c.encode_spec(i) + sep_chars(sep) + name + seq!['\n']
}

/// The lines of all entries named `names`, in order.
pub open spec fn stream_spec(c: TagCodec, sep: Option<Seq<char>>, names: Seq<Seq<char>>) -> Seq<
    char,
>
    decreases names.len(),
{
    if names.len() == 0 {
        Seq::<char>::empty()
    } else {
        stream_spec(c, sep, names.drop_last()) + line_spec(
            c,
            sep,
            (names.len() - 1) as nat,
            names.last(),
        )
    }
}

/// The text handed to the selector: for each entry, its tag, the separator, its name and a line
/// feed.
pub fn build_stream(entries: &Vec<Entry>, codec: &TagCodec, separator: &Option<String>) -> (r:
    String)
    requires
        codec.wf(),
        entries@.len() <= codec.count,
    ensures
        r@ == stream_spec(*codec, string_view(*separator), names_of(entries@)),
{
    let ghost sep = string_view(*separator);
    let mut r = String::new();
    let mut i: usize = 0;
    while i < entries.len()
        invariant
            i <= entries@.len() <= codec.count,
            codec.wf(),
            sep == string_view(*separator),
            r@ == stream_spec(*codec, sep, names_of(entries@).take(i as int)),
        decreases entries@.len() - i,
    {
        let tag = codec.encode(i);
        push_chars(&mut r, tag.as_str());
        match separator {
            Some(s) => push_chars(&mut r, s.as_str()),
            None => {},
        }
        push_chars(&mut r, entries[i].name.as_str());
        r.push('\n');
        proof {
            let names = names_of(entries@);
            assert(names.take(i + 1).drop_last() == names.take(i as int));
            assert(names.take(i + 1).last() == entries@[i as int].name@);
        }
        i = i + 1;
    }
    assert(names_of(entries@).take(i as int) == names_of(entries@));
    r
}


/// What a non-blank trimmed choice resolves to: the command of the entry whose tag it starts
/// with, else the choice itself where ad-hoc commands are allowed, else nothing.
pub open spec fn choice_spec(
    c: TagCodec,
    runs: Seq<Seq<char>>,
    ad_hoc: bool,
    choice: Seq<char>,
) -> Option<Seq<char>> {
    match c.decode_spec(choice) {
        Some(i) => Some(runs[i as int]),
        None => if ad_hoc {
            Some(choice)
        } else {
            None
        },
    }
}

/// The commands that the lines `ls` resolve to, in order, blank lines skipped; or the first
/// trimmed line that resolves to nothing.
pub open spec fn resolve_spec(
    c: TagCodec,
    runs: Seq<Seq<char>>,
    ad_hoc: bool,
    ls: Seq<Seq<char>>,
) -> Result<Seq<Seq<char>>, Seq<char>>
    decreases ls.len(),
{
    if ls.len() == 0 {
        Ok(Seq::<Seq<char>>::empty())
    } else {
        match resolve_spec(c, runs, ad_hoc, ls.drop_last()) {
            Err(e) => Err(e),
            Ok(prev) => {
                let choice = trim(ls.last());
                if choice.len() == 0 {
                    Ok(prev)
                } else {
                    match choice_spec(c, runs, ad_hoc, choice) {
                        Some(cmd) => Ok(prev.push(cmd)),
                        None => Err(choice),
                    }
                }
            },
        }
    }
}

/// Once a prefix of the lines fails to resolve, all of them fail on the same line.
proof fn lemma_resolve_err_prefix(
    c: TagCodec,
    runs: Seq<Seq<char>>,
    ad_hoc: bool,
    ls: Seq<Seq<char>>,
    n: int,
)
    requires
        0 <= n <= ls.len(),
        resolve_spec(c, runs, ad_hoc, ls.take(n)) is Err,
    ensures
        resolve_spec(c, runs, ad_hoc, ls) == resolve_spec(c, runs, ad_hoc, ls.take(n)),
    decreases ls.len() - n,
{
    if n == ls.len() {
        assert(ls.take(n) == ls);
    } else {
        assert(ls.take(n + 1).drop_last() == ls.take(n));
        lemma_resolve_err_prefix(c, runs, ad_hoc, ls, n + 1);
    }
}

/// The characters of each string, in order.
pub open spec fn strings_view(v: Seq<String>) -> Seq<Seq<char>> {
    v.map_values(|s: String| s@)
}

/// Resolves one line of the selector's answer: `Ok(None)` for a blank line, the command for a
/// line that starts with a tag or, where ad-hoc commands are allowed, for any other line.
pub fn resolve_line(line: &[char], codec: &TagCodec, entries: &Vec<Entry>, ad_hoc: bool) -> (r:
    Result<Option<String>, MenuError>)
    requires
        codec.wf(),
        codec.count == entries@.len(),
    ensures
        ({
            let choice = trim(line@);
            if choice.len() == 0 {
                r == Ok::<Option<String>, MenuError>(None)
            } else {
                match choice_spec(*codec, runs_of(entries@), ad_hoc, choice) {
                    Some(cmd) => r matches Ok(Some(s)) && s@ == cmd,
                    None => r matches Err(MenuError::InvalidChoice(s)) && s@ == choice,
                }
            }
        }),
{
    let choice = trimmed(line);
    if choice.len() == 0 {
        return Ok(None);
    }
    match codec.decode_chars(choice.as_slice()) {
        Some(i) => Ok(Some(entries[i].run.clone())),
        None => {
            if ad_hoc {
                Ok(Some(string_of(choice.as_slice())))
            } else {
                Err(MenuError::InvalidChoice(string_of(choice.as_slice())))
            }
        },
    }
}

/// Resolves the selector's whole answer, one command per non-blank line in order, or fails on
/// the first line that resolves to nothing.
pub fn resolve_selection(raw: &str, codec: &TagCodec, entries: &Vec<Entry>, ad_hoc: bool) -> (r:
    Result<Vec<String>, MenuError>)
    requires
        codec.wf(),
        codec.count == entries@.len(),
    ensures
        match resolve_spec(*codec, runs_of(entries@), ad_hoc, lines(raw@)) {
            Ok(cmds) => r matches Ok(v) && strings_view(v@) == cmds,
            Err(choice) => r matches Err(MenuError::InvalidChoice(s)) && s@ == choice,
        },
{
    let cs = chars_of(raw);
    let ghost runs = runs_of(entries@);
    let ghost mut done: Seq<Seq<char>> = Seq::empty();
    let mut cur: Vec<char> = Vec::new();
    let mut out: Vec<String> = Vec::new();
    let mut i: usize = 0;
    assert(strings_view(out@) =~= Seq::<Seq<char>>::empty());
    assert(cs@.take(0) == Seq::<char>::empty());
    while i < cs.len()
        invariant
            i <= cs@.len(),
            cs@ == raw@,
            codec.wf(),
            codec.count == entries@.len(),
            runs == runs_of(entries@),
            lines(cs@.take(i as int)) == done.push(cur@),
            resolve_spec(*codec, runs, ad_hoc, done) == Ok::<Seq<Seq<char>>, Seq<char>>(
                strings_view(out@),
            ),
        decreases cs@.len() - i,
    {
        let c = cs[i];
        proof {
            let t = cs@.take(i + 1);
            assert(t.drop_last() == cs@.take(i as int));
            assert(t.last() == c);
        }
        if c == '\n' {
            let res = resolve_line(cur.as_slice(), codec, entries, ad_hoc);
            proof {
                let ls = done.push(cur@);
                assert(ls.drop_last() == done);
                assert(ls.last() == cur@);
            }
            match res {
                Ok(Some(cmd)) => {
                    let ghost before = out@;
                    out.push(cmd);
                    assert(strings_view(out@) =~= strings_view(before).push(cmd@));
                },
                Ok(None) => {},
                Err(e) => {
                    proof {
                        let ls = lines(cs@);
                        let t = cs@.take(i + 1);
                        assert(t.drop_last() == cs@.take(i as int));
                        assert(lines(t) == done.push(cur@).push(Seq::<char>::empty()));
                        assert(lines(t).drop_last() == done.push(cur@));
                        lemma_lines_prefix(cs@, i + 1);
                        lemma_resolve_err_prefix(*codec, runs, ad_hoc, ls, done.len() + 1 as int);
                    }
                    return Err(e);
                },
            }
            proof {
                done = done.push(cur@);
            }
            cur = Vec::new();
        } else {
            cur.push(c);
            proof {
                let prev = lines(cs@.take(i as int));
                assert(done.push(cur@) == prev.update(prev.len() - 1, prev.last().push(c)));
            }
        }
        i = i + 1;
    }
    assert(cs@.take(i as int) == cs@);
    let res = resolve_line(cur.as_slice(), codec, entries, ad_hoc);
    proof {
        let ls = done.push(cur@);
        assert(ls.drop_last() == done);
        assert(ls.last() == cur@);
    }
    match res {
        Ok(Some(cmd)) => {
            let ghost before = out@;
            out.push(cmd);
            assert(strings_view(out@) =~= strings_view(before).push(cmd@));
            Ok(out)
        },
        Ok(None) => Ok(out),
        Err(e) => Err(e),
    }
}


proof fn lemma_stream_prefix(c: TagCodec, sep: Option<Seq<char>>, names: Seq<Seq<char>>, j: int)
    requires
        0 <= j <= names.len(),
    ensures
        stream_spec(c, sep, names.take(j)).is_prefix_of(stream_spec(c, sep, names)),
    decreases names.len() - j,
{
    if j == names.len() {
        assert(names.take(j) == names);
    } else {
        lemma_stream_prefix(c, sep, names, j + 1);
        assert(names.take(j + 1).drop_last() == names.take(j));
        let a = stream_spec(c, sep, names.take(j));
        let b = stream_spec(c, sep, names.take(j + 1));
        let full = stream_spec(c, sep, names);
        assert(a.is_prefix_of(b));
        assert forall|k: int| 0 <= k < a.len() implies a[k] == full[k] by {
            assert(a[k] == b[k]);
        }
    }
}

/// Order preservation: the line of entry `k` follows the lines of the entries before it, and
/// the stream starts with them all.
pub proof fn lemma_stream_order(c: TagCodec, sep: Option<Seq<char>>, names: Seq<Seq<char>>, k: int)
    requires
        0 <= k < names.len(),
    ensures
        stream_spec(c, sep, names.take(k + 1)) == stream_spec(c, sep, names.take(k)) + line_spec(
            c,
            sep,
            k as nat,
            names[k],
        ),
        stream_spec(c, sep, names.take(k + 1)).is_prefix_of(stream_spec(c, sep, names)),
{
    assert(names.take(k + 1).drop_last() == names.take(k));
    assert(names.take(k + 1).last() == names[k]);
    lemma_stream_prefix(c, sep, names, k + 1);
}

/// Ad-hoc gating: a single non-blank line that carries no tag fails where ad-hoc commands are
/// off, and is taken, trimmed, as the command where they are on.
pub proof fn lemma_ad_hoc_gating(c: TagCodec, runs: Seq<Seq<char>>, line: Seq<char>)
    requires
        !line.contains('\n'),
        trim(line).len() > 0,
        c.decode_spec(trim(line)) is None,
    ensures
        resolve_spec(c, runs, false, lines(line)) == Err::<Seq<Seq<char>>, Seq<char>>(trim(line)),
        resolve_spec(c, runs, true, lines(line)) == Ok::<Seq<Seq<char>>, Seq<char>>(
            seq![trim(line)],
        ),
{
    lemma_lines_single(line);
    let ls = seq![line];
    assert(ls.drop_last() == Seq::<Seq<char>>::empty());
    assert(ls.last() == line);
    let e = Seq::<Seq<char>>::empty();
    assert(resolve_spec(c, runs, false, e) == Ok::<Seq<Seq<char>>, Seq<char>>(e));
    assert(resolve_spec(c, runs, true, e) == Ok::<Seq<Seq<char>>, Seq<char>>(e));
    assert(e.push(trim(line)) == seq![trim(line)]);
}

/// Choosing an emitted line runs its entry: the line of entry `k`, without its line feed and
/// whatever trailing whitespace the selector leaves off, resolves to the command of entry `k`.
/// Decimal tags need what follows them not to start with a digit.
pub proof fn lemma_select_line(
    c: TagCodec,
    sep: Option<Seq<char>>,
    name: Seq<char>,
    runs: Seq<Seq<char>>,
    k: nat,
    ad_hoc: bool,
)
    requires
        c.wf(),
        runs.len() == c.count,
        k < c.count,
        !(sep_chars(sep) + name).contains('\n'),
        c.family == TagFamily::Decimal ==> (sep_chars(sep) + name).len() == 0 || !is_digit(
            (sep_chars(sep) + name)[0],
        ),
    ensures
        resolve_spec(c, runs, ad_hoc, lines(c.encode_spec(k) + sep_chars(sep) + name))
            == Ok::<Seq<Seq<char>>, Seq<char>>(seq![runs[k as int]]),
{
    let tag = c.encode_spec(k);
    let rest = sep_chars(sep) + name;
    let line = tag + rest;
    assert(line == tag + sep_chars(sep) + name);
    lemma_tag_shape(c, k);
    assert(!line.contains('\n')) by {
        if line.contains('\n') {
            let j = choose|j: int| 0 <= j < line.len() && line[j] == '\n';
            if j < tag.len() {
                assert(line[j] == tag[j]);
            } else {
                assert(line[j] == rest[j - tag.len()]);
            }
        }
    }
    lemma_lines_single(line);
    assert(line[0] == tag[0]);
    assert(trim_start(line) == line);
    assert(tag.last() == tag[tag.len() - 1]);
    lemma_trim_end_concat(tag, rest);
    let r2 = trim_end(rest);
    let choice = tag + r2;
    assert(trim(line) == choice);
    match c.family {
        TagFamily::Decimal => {
            if r2.len() > 0 {
                assert(r2[0] == rest[0]);
            }
            lemma_decimal_decode_prefix(c, k, r2);
        },
        TagFamily::Ternary => lemma_ternary_decode_prefix(c, k, r2),
    }
    let ls = seq![line];
    let e = Seq::<Seq<char>>::empty();
    assert(ls.drop_last() == e);
    assert(ls.last() == line);
    assert(resolve_spec(c, runs, ad_hoc, e) == Ok::<Seq<Seq<char>>, Seq<char>>(e));
    assert(e.push(runs[k as int]) == seq![runs[k as int]]);
}

/// The configuration that the core reads.
#[derive(Clone, Debug)]
pub struct Config {
    /// Decimal tags where set, ternary tags otherwise.
    pub numbered: bool,
    /// Whether a chosen line without a tag is run as a command of its own.
    pub ad_hoc: bool,
    /// The user's separator, if any.
    pub separator: Option<SeparatorSetting>,
    /// The interpreter that runs the commands, if not the default one.
    pub shell: Option<String>,
    /// Arguments handed on to the selector.
    pub dmenu_args: Vec<String>,
}

/// The entries of one run, in order, with their configuration.
#[derive(Clone, Debug)]
pub struct Menu {
    pub entries: Vec<Entry>,
    pub config: Config,
}

/// The separator that a family puts between tag and name.
pub open spec fn family_separator() -> Option<Seq<char>> {
    Some(seq![' '])
}

impl Menu {
    /// Whether tags of the configured family can cover the entries.
    pub open spec fn fits(self) -> bool {
        codec_fits(self.config.numbered, self.entries@.len())
    }

    /// The codec of the configured family for the entries.
    pub open spec fn codec_spec(self) -> TagCodec {
        codec_for(self.config.numbered, self.entries.len())
    }

    /// `e` is the capacity error for the entries.
    pub open spec fn is_capacity_error(self, e: MenuError) -> bool {
        e matches MenuError::EncodingCapacityExceeded(n) && n == self.entries@.len()
    }

    /// The codec for this menu's entries and family.
    pub fn codec(&self) -> (r: Result<TagCodec, MenuError>)
        ensures
            r is Ok <==> self.fits(),
            r matches Ok(c) ==> c.wf() && c.count == self.entries@.len() && c == self.codec_spec(),
            r matches Err(e) ==> self.is_capacity_error(e),
    {
        match TagCodec::new(self.config.numbered, self.entries.len()) {
            Ok(c) => Ok(c),
            Err(CodecError::CapacityExceeded { count }) => Err(
                MenuError::EncodingCapacityExceeded(count),
            ),
        }
    }

    /// The separator in force for this menu.
    pub fn separator(&self, codec: &TagCodec) -> (r: Option<String>)
        ensures
            r is Some <==> separator_spec(codec.separator_default_spec(), self.config.separator)
                is Some,
            r matches Some(s) ==> separator_spec(
                codec.separator_default_spec(),
                self.config.separator,
            ) == Some(s@),
    {
        resolve_separator(codec.separator_default(), &self.config.separator)
    }

    /// The text handed to the selector, or the capacity error where the tags cannot cover the
    /// entries.
    pub fn construct_entries(&self) -> (r: Result<String, MenuError>)
        ensures
            r is Ok <==> self.fits(),
            r matches Ok(s) ==> s@ == stream_spec(
                self.codec_spec(),
                separator_spec(family_separator(), self.config.separator),
                names_of(self.entries@),
            ),
            r matches Err(e) ==> self.is_capacity_error(e),
    {
        let codec = match self.codec() {
            Ok(c) => c,
            Err(e) => return Err(e),
        };
        let sep = self.separator(&codec);
        Ok(build_stream(&self.entries, &codec, &sep))
    }

    /// The commands that the selector's answer `raw` resolves to.
    pub fn resolve_choices(&self, raw: &str) -> (r: Result<Vec<String>, MenuError>)
        ensures
            !self.fits() ==> (r matches Err(e) && self.is_capacity_error(e)),
            self.fits() ==> match resolve_spec(
                self.codec_spec(),
                runs_of(self.entries@),
                self.config.ad_hoc,
                lines(raw@),
            ) {
                Ok(cmds) => r matches Ok(v) && strings_view(v@) == cmds,
                Err(choice) => r matches Err(MenuError::InvalidChoice(s)) && s@ == choice,
            },
    {
        let codec = match self.codec() {
            Ok(c) => c,
            Err(e) => return Err(e),
        };
        resolve_selection(raw, &codec, &self.entries, self.config.ad_hoc)
    }

    /// The interpreter that runs the commands: the configured one, else `sh`.
    pub fn shell(&self) -> (r: String)
        ensures
            r@ == match self.config.shell {
                Some(s) => s@,
                None => seq!['s', 'h'],
            },
    {
        match &self.config.shell {
            Some(s) => s.clone(),
            None => {
                let mut r = String::new();
                r.push('s');
                r.push('h');
                r
            },
        }
    }
}

} // verus!
