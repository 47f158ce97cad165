use vstd::prelude::*;
use vstd::string::StringExecFns;
use crate::clauses::{trim, trim_chars};
use crate::text::{chars_of, string_from_chars};

verus! {

/// The token that pads the model input at both ends.
pub const BOUNDARY_TOKEN: i64 = 0;

/// The token that asks the model for a moment of silence.
pub const SILENCE_TOKEN: i64 = 30;

/// The sample rate of the model's audio, in Hz.
pub const SAMPLE_RATE: u32 = 24000;

/// The model input for a chunk: a boundary token, `silence` silence tokens, the chunk's
/// tokens, and a boundary token.
pub open spec fn model_input(tokens: Seq<i64>, silence: nat) -> Seq<i64> {
    seq![BOUNDARY_TOKEN] + Seq::new(silence, |i: int| SILENCE_TOKEN) + tokens + seq![
        BOUNDARY_TOKEN,
    ]
}

/// Frames the tokens of a chunk for the model, with `initial_silence` silence tokens
/// in front of the text.
pub fn pad_tokens(tokens: &Vec<i64>, initial_silence: usize) -> (r: Vec<i64>)
    requires
        tokens@.len() + initial_silence + 2 <= usize::MAX,
    ensures
        r@ == model_input(tokens@, initial_silence as nat),
{
    let mut r: Vec<i64> = Vec::new();
    r.push(BOUNDARY_TOKEN);
    for i in 0..initial_silence
        invariant
            r@ == seq![BOUNDARY_TOKEN] + Seq::new(i as nat, |k: int| SILENCE_TOKEN),
    {
        r.push(SILENCE_TOKEN);
        assert(r@ =~= seq![BOUNDARY_TOKEN] + Seq::new((i + 1) as nat, |k: int| SILENCE_TOKEN));
    }
    let ghost head = r@;
    for i in 0..tokens.len()
        invariant
            r@ == head + tokens@.take(i as int),
    {
        r.push(tokens[i]);
        assert(r@ =~= head + tokens@.take(i + 1));
    }
    assert(tokens@.take(tokens@.len() as int) =~= tokens@);
    r.push(BOUNDARY_TOKEN);
    assert(r@ =~= model_input(tokens@, initial_silence as nat));
    r
}

/// The pieces of `s` between occurrences of `sep`, as `str::split` gives them: one
/// more piece than there are separators, empty pieces included.
pub open spec fn split_on(s: Seq<char>, sep: char) -> Seq<Seq<char>>
    decreases s.len(),
{
    if s.len() == 0 {
        seq![seq![]]
    } else {
        let p = split_on(s.drop_last(), sep);
        if s.last() == sep {
            p.push(seq![])
        } else {
            p.update(p.len() - 1, p.last().push(s.last()))
        }
    }
}

/// The position of the first `c` in `s`, if any.
pub open spec fn find_char(s: Seq<char>, c: char) -> Option<nat> {
    if exists|i: int| 0 <= i < s.len() && s[i] == c {
        let i = choose|i: int| 0 <= i < s.len() && s[i] == c && forall|j: int| 0 <= j < i ==> s[j] != c;
        Some(i as nat)
    } else {
        None
    }
}

/// One named style of a blend and its weight, as written: `name.weight`.
pub struct StylePart {
    pub name: String,
    pub portion: String,
}

/// How a voice name selects a style.
pub enum StyleSelection {
    /// A name without `+`: one style, looked up as is.
    Single(String),
    /// `name.weight+name.weight+...`: the named styles in these proportions. Pieces
    /// without a `.` are left out.
    Blend(Vec<StylePart>),
}

/// A piece cut at its first `.`: the name before, the weight after.
pub open spec fn cut_at_dot(p: Seq<char>) -> (Seq<char>, Seq<char>) {
    (p.take(find_char(p, '.')->0 as int), p.skip(find_char(p, '.')->0 as int + 1))
}

/// The pieces that hold a `.`, each cut at its first `.`, in order.
pub open spec fn blend_parts_of(pieces: Seq<Seq<char>>) -> Seq<(Seq<char>, Seq<char>)>
    decreases pieces.len(),
{
    if pieces.len() == 0 {
        seq![]
    } else if find_char(pieces.last(), '.') is Some {
        blend_parts_of(pieces.drop_last()).push(cut_at_dot(pieces.last()))
    } else {
        blend_parts_of(pieces.drop_last())
    }
}

/// The (name, weight) pairs of a blend: each `+`-separated piece with a `.`, cut at
/// its first `.`.
pub open spec fn blend_parts(s: Seq<char>) -> Seq<(Seq<char>, Seq<char>)> {
    blend_parts_of(split_on(s, '+'))
}

pub open spec fn parts_view(v: Seq<StylePart>) -> Seq<(Seq<char>, Seq<char>)> {
    v.map_values(|p: StylePart| (p.name@, p.portion@))
}

/// Reads a voice name: a plain name selects one style, and a name holding `+` a blend.
pub fn parse_style_name(style_name: &str) -> (r: StyleSelection)
    ensures
        find_char(style_name@, '+') is None ==> (r matches StyleSelection::Single(n) && n@
            == style_name@),
        find_char(style_name@, '+') is Some ==> (r matches StyleSelection::Blend(parts)
            && parts_view(parts@) == blend_parts(style_name@)),
{
    let chars = chars_of(style_name);
    if position_of(&chars, '+').is_none() {
        return StyleSelection::Single(String::from_str(style_name));
    }
    let pieces = split_chars(&chars, '+');
    let ghost ps = split_on(chars@, '+');
    let mut parts: Vec<StylePart> = Vec::new();
    let mut i: usize = 0;
    while i < pieces.len()
        invariant
            i <= pieces@.len(),
            pieces@.map_values(|p: Vec<char>| p@) == ps,
            parts_view(parts@) == blend_parts_of(ps.take(i as int)),
        decreases pieces@.len() - i,
    {
        let piece = &pieces[i];
        assert(ps.take(i + 1).drop_last() =~= ps.take(i as int));
        assert(ps[i as int] == pieces@[i as int]@);
        assert(ps.take(i + 1).last() == piece@);
        match position_of(piece, '.') {
            Some(dot) => {
                assert(dot < piece@.len());
                assert(cut_at_dot(piece@) == (piece@.take(dot as int), piece@.skip(dot + 1)));
                let name = string_from_chars(&slice_chars(piece, 0, dot));
                let len = piece.len();
                assert(dot < len);
                let after = dot + 1;
                let portion = string_from_chars(&slice_chars(piece, after, len));
                let ghost before = parts@;
                parts.push(StylePart { name, portion });
                assert(parts_view(parts@) =~= parts_view(before).push(
                    (piece@.take(dot as int), piece@.skip(dot + 1)),
                ));
            },
            None => {},
        }
        i = i + 1;
    }
    assert(ps.take(pieces@.len() as int) =~= ps);
    StyleSelection::Blend(parts)
}

/// What a voice name resolves to against the names of the voice table.
pub enum StylePlan {
    /// A plain name that the table does not hold: no voice can be made.
    Unknown,
    /// A plain name that the table holds.
    Single(String),
    /// The blend parts whose name the table holds, in order; the others are left out.
    Blend(Vec<StylePart>),
}

pub open spec fn names_view(v: Seq<String>) -> Seq<Seq<char>> {
    v.map_values(|n: String| n@)
}

/// The blend parts whose name is among `names`, in order.
pub open spec fn known_parts(ps: Seq<(Seq<char>, Seq<char>)>, names: Seq<Seq<char>>) -> Seq<
    (Seq<char>, Seq<char>),
>
    decreases ps.len(),
{
    if ps.len() == 0 {
        seq![]
    } else if names.contains(ps.last().0) {
        known_parts(ps.drop_last(), names).push(ps.last())
    } else {
        known_parts(ps.drop_last(), names)
    }
}

fn is_known(name: &String, available: &Vec<String>) -> (r: bool)
    ensures
        r == names_view(available@).contains(name@),
{
    let n = chars_of(name.as_str());
    for i in 0..available.len()
        invariant
            n@ == name@,
            forall|j: int| 0 <= j < i ==> available@[j]@ != name@,
    {
        if same_chars(&n, &chars_of(available[i].as_str())) {
            assert(names_view(available@)[i as int] == name@);
            return true;
        }
    }
    assert forall|j: int| 0 <= j < names_view(available@).len() implies names_view(
        available@,
    )[j] != name@ by {
        assert(names_view(available@)[j] == available@[j]@);
    }
    false
}

/// Resolves a voice name against the names of the voice table: a plain name must be
/// there, while a blend keeps the parts whose name is there and leaves out the others.
pub fn plan_style(style_name: &str, available: &Vec<String>) -> (r: StylePlan)
    ensures
        find_char(style_name@, '+') is None && names_view(available@).contains(style_name@) ==> (
        r matches StylePlan::Single(n) && n@ == style_name@),
        find_char(style_name@, '+') is None && !names_view(available@).contains(style_name@)
            ==> r is Unknown,
        find_char(style_name@, '+') is Some ==> (r matches StylePlan::Blend(parts) && parts_view(
            parts@,
        ) == known_parts(blend_parts(style_name@), names_view(available@))),
{
    match parse_style_name(style_name) {
        StyleSelection::Single(n) => {
            if is_known(&n, available) {
                StylePlan::Single(n)
            } else {
                StylePlan::Unknown
            }
        },
        StyleSelection::Blend(parts) => {
            let ghost pv = parts_view(parts@);
            let ghost names = names_view(available@);
            let mut kept: Vec<StylePart> = Vec::new();
            for i in 0..parts.len()
                invariant
                    pv == parts_view(parts@),
                    names == names_view(available@),
                    parts_view(kept@) == known_parts(pv.take(i as int), names),
            {
                assert(pv.take(i + 1).drop_last() =~= pv.take(i as int));
                assert(pv[i as int] == (parts@[i as int].name@, parts@[i as int].portion@));
                if is_known(&parts[i].name, available) {
                    let part = StylePart {
                        name: parts[i].name.clone(),
                        portion: parts[i].portion.clone(),
                    };
                    let ghost before = kept@;
                    kept.push(part);
                    assert(parts_view(kept@) =~= parts_view(before).push(pv[i as int]));
                }
            }
            assert(pv.take(parts@.len() as int) =~= pv);
            StylePlan::Blend(kept)
        },
    }
}

/// The first position of `c` in `s`.
fn position_of(s: &Vec<char>, c: char) -> (r: Option<usize>)
    ensures
        r is Some ==> find_char(s@, c) == Some(r->0 as nat) && r->0 < s@.len(),
        r is None ==> find_char(s@, c) is None,
{
    let mut i: usize = 0;
    while i < s.len()
        invariant
            i <= s@.len(),
            forall|j: int| 0 <= j < i ==> s@[j] != c,
        decreases s@.len() - i,
    {
        if s[i] == c {
            let ghost w = choose|k: int|
                0 <= k < s@.len() && s@[k] == c && forall|j: int| 0 <= j < k ==> s@[j] != c;
            assert(0 <= i < s@.len() && s@[i as int] == c && forall|j: int|
                0 <= j < i ==> s@[j] != c);
            assert(w == i) by {
                if w < i {
                    assert(s@[w] != c);
                } else if w > i {
                    assert(s@[i as int] != c);
                }
            }
            return Some(i);
        }
        i = i + 1;
    }
    None
}

/// The characters `s[from..to]`.
fn slice_chars(s: &Vec<char>, from: usize, to: usize) -> (r: Vec<char>)
    requires
        from <= to <= s@.len(),
    ensures
        r@ == s@.subrange(from as int, to as int),
{
    let mut r: Vec<char> = Vec::new();
    for i in from..to
        invariant
            from <= to <= s@.len(),
            r@ == s@.subrange(from as int, i as int),
    {
        r.push(s[i]);
        assert(r@ =~= s@.subrange(from as int, i + 1));
    }
    r
}

/// The pieces of `s` between occurrences of `sep`.
fn split_chars(s: &Vec<char>, sep: char) -> (r: Vec<Vec<char>>)
    ensures
        r@.map_values(|p: Vec<char>| p@) == split_on(s@, sep),
{
    let mut r: Vec<Vec<char>> = Vec::new();
    let mut cur: Vec<char> = Vec::new();
    for i in 0..s.len()
        invariant
            split_on(s@.take(i as int), sep) == r@.map_values(|p: Vec<char>| p@).push(cur@),
    {
        assert(s@.take(i + 1).drop_last() =~= s@.take(i as int));
        let ghost rv = r@.map_values(|p: Vec<char>| p@);
        if s[i] == sep {
            let piece = cur;
            r.push(piece);
            cur = Vec::new();
            assert(r@.map_values(|p: Vec<char>| p@) =~= rv.push(piece@));
            assert(cur@ =~= seq![]);
        } else {
            let ghost old_cur = cur@;
            cur.push(s[i]);
            assert(rv.push(old_cur).update(rv.len() as int, old_cur.push(s@[i as int])) =~= rv.push(
                cur@,
            ));
        }
    }
    assert(s@.take(s@.len() as int) =~= s@);
    let ghost rv = r@.map_values(|p: Vec<char>| p@);
    let piece = cur;
    r.push(piece);
    assert(r@.map_values(|p: Vec<char>| p@) =~= rv.push(piece@));
    r
}


/// Where the model and the voice table are fetched from, and the audio sample rate.
pub struct InitConfig {
    pub model_url: String,
    pub voices_url: String,
    pub sample_rate: u32,
}

/// The model file that is fetched when none is on disk.
pub const MODEL_URL: &'static str =
    "https://github.com/thewh1teagle/kokoro-onnx/releases/download/model-files-v1.0/kokoro-v1.0.onnx";

/// The voice table that is fetched when none is on disk.
pub const VOICES_URL: &'static str =
    "https://github.com/thewh1teagle/kokoro-onnx/releases/download/model-files-v1.0/voices-v1.0.bin";

impl Default for InitConfig {
    fn default() -> (r: Self)
        ensures
            r.model_url@ == MODEL_URL@,
            r.voices_url@ == VOICES_URL@,
            r.sample_rate == SAMPLE_RATE,
    {
        InitConfig {
            model_url: String::from_str(MODEL_URL),
            voices_url: String::from_str(VOICES_URL),
            sample_rate: SAMPLE_RATE,
        }
    }
}

/// The audio formats a client may ask for.
#[derive(PartialEq, Eq, Structural, Debug, Clone, Copy)]
pub enum AudioFormat {
    Mp3,
    Wav,
    Opus,
    Aac,
    Flac,
    Pcm,
}

/// How a complete, non-streamed response is encoded.
#[derive(PartialEq, Eq, Structural, Debug, Clone, Copy)]
pub enum Encoding {
    Wav,
    Mp3,
    Pcm,
}

/// The format a lowercase name stands for.
pub open spec fn format_named(name: Seq<char>) -> Option<AudioFormat> {
    if name == seq!['m', 'p', '3'] {
        Some(AudioFormat::Mp3)
    } else if name == seq!['w', 'a', 'v'] {
        Some(AudioFormat::Wav)
    } else if name == seq!['o', 'p', 'u', 's'] {
        Some(AudioFormat::Opus)
    } else if name == seq!['a', 'a', 'c'] {
        Some(AudioFormat::Aac)
    } else if name == seq!['f', 'l', 'a', 'c'] {
        Some(AudioFormat::Flac)
    } else if name == seq!['p', 'c', 'm'] {
        Some(AudioFormat::Pcm)
    } else {
        None
    }
}

fn same_chars(a: &Vec<char>, b: &Vec<char>) -> (r: bool)
    ensures
        r == (a@ == b@),
{
    if a.len() != b.len() {
        return false;
    }
    for i in 0..a.len()
        invariant
            a@.len() == b@.len(),
            forall|j: int| 0 <= j < i ==> a@[j] == b@[j],
    {
        if a[i] != b[i] {
            return false;
        }
    }
    assert(a@ =~= b@);
    true
}

impl AudioFormat {
    /// The format that a request names when it names none.
    pub fn default_format() -> (r: Self)
        ensures
            r == AudioFormat::Mp3,
    {
        AudioFormat::Mp3
    }

    /// The format named in lowercase: `mp3`, `wav`, `opus`, `aac`, `flac` or `pcm`.
    pub fn from_name(name: &str) -> (r: Option<AudioFormat>)
        ensures
            r == format_named(name@),
    {
        let n = chars_of(name);
        if same_chars(&n, &vec!['m', 'p', '3']) {
            Some(AudioFormat::Mp3)
        } else if same_chars(&n, &vec!['w', 'a', 'v']) {
            Some(AudioFormat::Wav)
        } else if same_chars(&n, &vec!['o', 'p', 'u', 's']) {
            Some(AudioFormat::Opus)
        } else if same_chars(&n, &vec!['a', 'a', 'c']) {
            Some(AudioFormat::Aac)
        } else if same_chars(&n, &vec!['f', 'l', 'a', 'c']) {
            Some(AudioFormat::Flac)
        } else if same_chars(&n, &vec!['p', 'c', 'm']) {
            Some(AudioFormat::Pcm)
        } else {
            None
        }
    }

    /// The encoding of a complete response: WAV and PCM as asked, MP3 for the rest.
    pub fn encoding(self) -> (r: Encoding)
        ensures
            r == match self {
                AudioFormat::Wav => Encoding::Wav,
                AudioFormat::Pcm => Encoding::Pcm,
                _ => Encoding::Mp3,
            },
    {
        match self {
            AudioFormat::Wav => Encoding::Wav,
            AudioFormat::Pcm => Encoding::Pcm,
            _ => Encoding::Mp3,
        }
    }
}

impl Encoding {
    pub open spec fn content_type_spec(self) -> Seq<char> {
        match self {
            Encoding::Wav => "audio/wav"@,
            Encoding::Mp3 => "audio/mpeg"@,
            Encoding::Pcm => "audio/pcm"@,
        }
    }

    /// The HTTP content type of a response in this encoding.
    pub fn content_type(self) -> (r: &'static str)
        ensures
            r@ == self.content_type_spec(),
    {
        match self {
            Encoding::Wav => "audio/wav",
            Encoding::Mp3 => "audio/mpeg",
            Encoding::Pcm => "audio/pcm",
        }
    }
}

/// The words per chunk when a response is streamed.
pub const STREAM_WORDS_PER_CHUNK: usize = 10;

/// The leading silence requested for a whole text goes to its first chunk only.
pub fn silence_for_chunk(id: usize, initial_silence: Option<usize>) -> (r: Option<usize>)
    ensures
        r == if id == 0 {
            initial_silence
        } else {
            None::<usize>
        },
{
    if id == 0 {
        initial_silence
    } else {
        None
    }
}

/// A chunk goes to the model only if it holds something besides whitespace; a blank
/// chunk is silent.
pub fn needs_inference(text: &str) -> (r: bool)
    ensures
        r == (trim(text@).len() > 0),
{
    trim_chars(&chars_of(text)).len() > 0
}

/// A response streams unless the request says `stream: false`.
pub fn should_stream(stream: Option<bool>) -> (r: bool)
    ensures
        r == match stream {
            Some(b) => b,
            None => true,
        },
{
    match stream {
        Some(b) => b,
        None => true,
    }
}

} // verus!
