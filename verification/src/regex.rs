//! Regular expressions that compare, order and print by their source text,
//! compiled through a bounded least-recently-used cache.

use vstd::prelude::*;
use vstd::string::*;
use lru::LruCache;
use std::cmp::Ordering;
use std::num::NonZeroUsize;

verus! {

/// A compiled pattern of the `regex` crate. Proofs see nothing inside it;
/// the pattern itself is the one public field.
#[verifier::external_body]
pub struct Compiled {
    pub inner: ::regex::Regex,
}

/// The error that the `regex` crate reports when it cannot compile a pattern.
#[verifier::external_type_specification]
#[verifier::external_body]
pub struct ExCompileError(::regex::Error);

/// The bounded cache of the `lru` crate.
#[verifier::external_type_specification]
#[verifier::external_body]
#[verifier::reject_recursive_types(K)]
#[verifier::reject_recursive_types(V)]
#[verifier::reject_recursive_types(S)]
pub struct ExLruCache<K, V, S>(LruCache<K, V, S>);

/// The hasher that the `lru` crate gives its caches by default.
#[verifier::external_type_specification]
#[verifier::external_body]
pub struct ExCacheHasher(lru::DefaultHasher);

/// The text that `regex::Regex::as_str` returns for a compiled pattern.
pub uninterp spec fn pattern_text(re: Compiled) -> Seq<char>;

/// What `regex::Regex::new` makes of the given text: nothing if it
/// compiles the text, and otherwise the error that it reports.
pub uninterp spec fn compile_failure(text: Seq<char>) -> Option<RegexErrorView>;

/// The variant of a `regex::Error` and what it holds; any variant but the
/// two that the `regex` crate names today counts as `Other`.
pub uninterp spec fn error_parts(e: ::regex::Error) -> RegexErrorView;

/// Whether `regex::Regex::new` compiles the given text.
pub open spec fn pattern_compiles(text: Seq<char>) -> bool {
    compile_failure(text) is None
}

/// What `str::parse::<u64>` makes of the given text.
pub uninterp spec fn parsed_number(text: Seq<char>) -> Option<u64>;

/// The entries of a cache, most recently used first: each is a key and the
/// source text of the pattern stored under it.
pub uninterp spec fn cache_entries(cache: LruCache<String, Compiled>) -> Seq<(Seq<char>, Seq<char>)>;

/// The number of entries that a cache was created to hold.
pub uninterp spec fn cache_limit(cache: LruCache<String, Compiled>) -> nat;

/// The largest number of patterns that a cache can be made for. The cache
/// allocates its table ahead: a number of slots that is the next power of
/// two above eight sevenths of the limit, each of two machine words and a
/// byte. Up to this limit the size of that table is one that the machine
/// can express; beyond it the size can overflow.
pub const MAX_CACHE_SIZE: usize = usize::MAX / 128;

/// Why a text could not be turned into a [`Regex`].
#[derive(Debug)]
pub enum RegexError {
    /// The text is not a valid pattern; the message says why.
    Syntax(String),
    /// The compiled pattern would exceed the given size limit.
    CompiledTooBig(usize),
    /// Any other failure that the pattern compiler reports.
    Other,
}

/// What a [`RegexError`] holds.
pub enum RegexErrorView {
    Syntax(Seq<char>),
    CompiledTooBig(usize),
    Other,
}

impl View for RegexError {
    type V = RegexErrorView;

    open spec fn view(&self) -> RegexErrorView {
        match self {
            RegexError::Syntax(message) => RegexErrorView::Syntax(message@),
            RegexError::CompiledTooBig(limit) => RegexErrorView::CompiledTooBig(*limit),
            RegexError::Other => RegexErrorView::Other,
        }
    }
}

/// A regular expression. It is written between `/` delimiters, and two of
/// them are equal when their source texts are.
pub struct Regex(pub Compiled);

impl Clone for Regex {
    fn clone(&self) -> (copy: Self)
        ensures
            pattern_text(copy.0) == pattern_text(self.0),
    {
        Regex(clone_pattern(&self.0))
    }
}

/// The text `a` comes strictly before `b` when both are read as sequences of
/// code points and compared position by position.
pub open spec fn text_less(a: Seq<char>, b: Seq<char>) -> bool
    decreases a.len(),
{
    if b.len() == 0 {
        false
    } else if a.len() == 0 {
        true
    } else if a[0] != b[0] {
        (a[0] as u32) < (b[0] as u32)
    } else {
        text_less(a.skip(1), b.skip(1))
    }
}

/// The text with every `\/` replaced by `/`, reading from the left.
pub open spec fn unescaped(s: Seq<char>) -> Seq<char>
    decreases s.len(),
{
    if s.len() == 0 {
        s
    } else if s.len() >= 2 && s[0] == '\\' && s[1] == '/' {
        seq!['/'] + unescaped(s.skip(2))
    } else {
        seq![s[0]] + unescaped(s.skip(1))
    }
}

/// The cache size for a configured value: the value if it parses as a
/// number, otherwise 1000, and never less than 10.
pub open spec fn configured_size(parsed: Option<usize>) -> usize {
    let wanted: usize = match parsed {
        Some(n) => n,
        None => 1000,
    };
    if wanted < 10 { 10 } else { wanted }
}

/// Calls `regex::Regex::new`. It succeeds exactly on the texts that
/// compile, and the compiled pattern reports the text it was given as its
/// source. The error for a text depends on the text alone.
#[verifier::external_body]
fn compile(text: &str) -> (r: Result<Compiled, ::regex::Error>)
    ensures
        r is Ok <==> compile_failure(text@) is None,
        r is Ok ==> pattern_text(r->Ok_0) == text@,
        r is Err ==> compile_failure(text@) == Some(error_parts(r->Err_0)),
{
    match ::regex::Regex::new(text) {
        Ok(inner) => Ok(Compiled { inner }),
        Err(e) => Err(e),
    }
}

/// Calls `regex::Regex::as_str`, which returns the source text of the pattern.
#[verifier::external_body]
fn source<'a>(re: &'a Compiled) -> (s: &'a str)
    ensures
        s@ == pattern_text(*re),
{
    re.inner.as_str()
}

/// Calls `<regex::Regex as Clone>::clone`; the copy has the same source text.
#[verifier::external_body]
fn clone_pattern(re: &Compiled) -> (copy: Compiled)
    ensures
        pattern_text(copy) == pattern_text(*re),
{
    Compiled { inner: re.inner.clone() }
}

/// Tells the variants of `regex::Error` apart and moves their fields over.
#[verifier::external_body]
fn convert_error(e: ::regex::Error) -> (out: RegexError)
    ensures
        out@ == error_parts(e),
{
    match e {
        ::regex::Error::Syntax(message) => RegexError::Syntax(message),
        ::regex::Error::CompiledTooBig(limit) => RegexError::CompiledTooBig(limit),
        _ => RegexError::Other,
    }
}

/// Calls `str::cmp`, which orders strings by their bytes and so by their
/// code points, position by position.
#[verifier::external_body]
fn compare_text(a: &str, b: &str) -> (o: Ordering)
    ensures
        o is Less <==> text_less(a@, b@),
        o is Equal <==> a@ == b@,
{
    a.cmp(b)
}

/// Calls `str::parse::<u64>` and drops the reason of a failure.
#[verifier::external_body]
fn parse_number(text: &str) -> (r: Option<u64>)
    ensures
        r == parsed_number(text@),
{
    text.parse::<u64>().ok()
}

/// Calls `lru::LruCache::new`, which makes an empty cache for `limit`
/// entries and allocates a table for as many.
#[verifier::external_body]
fn lru_new(limit: usize) -> (cache: LruCache<String, Compiled>)
    requires
        0 < limit <= MAX_CACHE_SIZE,
    ensures
        cache_entries(cache) == Seq::<(Seq<char>, Seq<char>)>::empty(),
        cache_limit(cache) == limit,
{
    LruCache::new(NonZeroUsize::new(limit).unwrap())
}

/// Calls `lru::LruCache::get` and clones what it finds. A key that is present
/// moves to the front; a key that is absent leaves the cache as it was.
#[verifier::external_body]
fn lru_get(cache: &mut LruCache<String, Compiled>, key: &str) -> (r: Option<Compiled>)
    ensures
        cache_limit(*final(cache)) == cache_limit(*old(cache)),
        match r {
            Some(re) => exists|i: int|
                0 <= i < cache_entries(*old(cache)).len()
                && (#[trigger] cache_entries(*old(cache))[i]).0 == key@
                && pattern_text(re) == cache_entries(*old(cache))[i].1
                && cache_entries(*final(cache)) == seq![cache_entries(*old(cache))[i]]
                    + cache_entries(*old(cache)).remove(i),
            None => (forall|i: int|
                0 <= i < cache_entries(*old(cache)).len()
                ==> (#[trigger] cache_entries(*old(cache))[i]).0 != key@)
                && cache_entries(*final(cache)) == cache_entries(*old(cache)),
        },
{
    match cache.get(key) {
        Some(re) => Some(Compiled { inner: re.inner.clone() }),
        None => None,
    }
}

/// Calls `lru::LruCache::put`. The new entry goes to the front. An entry
/// with the same key is replaced; otherwise, when the cache is full, the
/// least recently used entry leaves.
#[verifier::external_body]
fn lru_put(cache: &mut LruCache<String, Compiled>, key: String, re: Compiled)
    ensures
        cache_limit(*final(cache)) == cache_limit(*old(cache)),
        forall|i: int|
            0 <= i < cache_entries(*old(cache)).len()
            && (#[trigger] cache_entries(*old(cache))[i]).0 == key@
            ==> cache_entries(*final(cache)) == seq![(key@, pattern_text(re))]
                + cache_entries(*old(cache)).remove(i),
        (forall|i: int|
            0 <= i < cache_entries(*old(cache)).len()
            ==> (#[trigger] cache_entries(*old(cache))[i]).0 != key@)
        ==> cache_entries(*final(cache)) == (if cache_entries(*old(cache)).len() >= cache_limit(*old(cache)) {
            seq![(key@, pattern_text(re))] + cache_entries(*old(cache)).drop_last()
        } else {
            seq![(key@, pattern_text(re))] + cache_entries(*old(cache))
        }),
{
    cache.put(key, re);
}

/// Calls `lru::LruCache::len`, which counts the entries.
#[verifier::external_body]
fn lru_len(cache: &LruCache<String, Compiled>) -> (n: usize)
    ensures
        n == cache_entries(*cache).len(),
{
    cache.len()
}

/// The size of the pattern cache for a configured value.
pub fn cache_size(parsed: Option<usize>) -> (size: usize)
    ensures
        size == configured_size(parsed),
{
    let wanted: usize = match parsed {
        Some(n) => n,
        None => 1000,
    };
    if wanted < 10 { 10 } else { wanted }
}

/// The size that a parsed setting asks for: the number, if the machine
/// can hold as many entries.
pub open spec fn wanted_size(parsed: Option<u64>) -> Option<usize> {
    match parsed {
        Some(n) => if n <= usize::MAX {
            Some(n as usize)
        } else {
            None
        },
        None => None,
    }
}

/// The size that a parsed setting asks for.
pub fn size_of_number(parsed: Option<u64>) -> (r: Option<usize>)
    ensures
        r == wanted_size(parsed),
{
    match parsed {
        Some(n) => if n <= usize::MAX as u64 {
            Some(n as usize)
        } else {
            None
        },
        None => None,
    }
}

/// The size of the pattern cache for the text of a setting, if there is one.
pub fn cache_size_setting(setting: Option<&str>) -> (size: usize)
    ensures
        size == (match setting {
            Some(text) => configured_size(wanted_size(parsed_number(text@))),
            None => configured_size(None),
        }),
{
    match setting {
        Some(text) => cache_size(size_of_number(parse_number(text))),
        None => cache_size(None),
    }
}

/// Replaces every `\/` in the text by `/`.
pub fn unescape(s: &str) -> (out: String)
    ensures
        out@ == unescaped(s@),
{
    let n: usize = s.unicode_len();
    let mut out = String::new();
    let mut i: usize = 0;
    proof {
        assert(s@.skip(0) =~= s@);
        assert(out@ + unescaped(s@) =~= unescaped(s@));
    }
    while i < n
        invariant
            n == s@.len(),
            i <= n,
            out@ + unescaped(s@.skip(i as int)) == unescaped(s@),
        decreases n - i,
    {
        let ghost rest = s@.skip(i as int);
        let c = s.get_char(i);
        if c == '\\' && i + 1 < n && s.get_char(i + 1) == '/' {
            proof {
                reveal_strlit("/");
                assert(rest.skip(2) == s@.skip(i + 2));
                assert(out@ + "/"@ + unescaped(rest.skip(2)) == out@ + unescaped(rest));
            }
            out.append("/");
            i = i + 2;
        } else {
            let piece = s.substring_char(i, i + 1);
            proof {
                assert(rest.skip(1) == s@.skip(i + 1));
                assert(piece@ == seq![rest[0]]);
                assert(out@ + piece@ + unescaped(rest.skip(1)) == out@ + unescaped(rest));
            }
            out.append(piece);
            i = i + 1;
        }
    }
    proof {
        assert(s@.skip(n as int) =~= Seq::<char>::empty());
        assert(out@ + Seq::<char>::empty() =~= out@);
    }
    out
}

/// Whether the text holds a NUL character.
pub fn contains_nul(s: &str) -> (found: bool)
    ensures
        found == s@.contains('\0'),
{
    let n: usize = s.unicode_len();
    let mut i: usize = 0;
    while i < n
        invariant
            n == s@.len(),
            i <= n,
            forall|j: int| 0 <= j < i ==> s@[j] != '\0',
        decreases n - i,
    {
        if s.get_char(i) == '\0' {
            return true;
        }
        i = i + 1;
    }
    false
}

/// A bounded cache of compiled patterns, keyed by their source text.
pub struct RegexCache {
    inner: LruCache<String, Compiled>,
}

impl RegexCache {
    /// The cached source texts, most recently used first.
    pub closed spec fn keys(&self) -> Seq<Seq<char>> {
        cache_entries(self.inner).map_values(|e: (Seq<char>, Seq<char>)| e.0)
    }

    /// The number of patterns that the cache holds at most.
    pub closed spec fn limit(&self) -> nat {
        cache_limit(self.inner)
    }

    /// The cache holds no more patterns than its limit and no text twice,
    /// every cached pattern is stored under its own source text, and that
    /// text compiles.
    pub closed spec fn wf(&self) -> bool {
        &&& cache_limit(self.inner) > 0
        &&& cache_entries(self.inner).len() <= cache_limit(self.inner)
        &&& forall|i: int, j: int|
            0 <= i < cache_entries(self.inner).len() && 0 <= j < cache_entries(self.inner).len()
            && i != j ==> (#[trigger] cache_entries(self.inner)[i]).0
                != (#[trigger] cache_entries(self.inner)[j]).0
        &&& forall|i: int|
            0 <= i < cache_entries(self.inner).len() ==> {
                let e = #[trigger] cache_entries(self.inner)[i];
                e.0 == e.1 && pattern_compiles(e.0)
            }
    }

    /// An empty cache for `size` patterns.
    pub fn new(size: usize) -> (cache: Self)
        requires
            0 < size <= MAX_CACHE_SIZE,
        ensures
            cache.wf(),
            cache.keys() == Seq::<Seq<char>>::empty(),
            cache.limit() == size,
    {
        let cache = RegexCache { inner: lru_new(size) };
        assert(cache.keys() =~= Seq::<Seq<char>>::empty());
        cache
    }

    /// An empty cache for `size` patterns, if a cache can be made for so many.
    pub fn try_new(size: usize) -> (r: Option<Self>)
        ensures
            r is Some <==> 0 < size <= MAX_CACHE_SIZE,
            r is Some ==> r->Some_0.wf() && r->Some_0.keys() == Seq::<Seq<char>>::empty() && r->Some_0.limit()
                == size,
    {
        if size == 0 || size > MAX_CACHE_SIZE {
            None
        } else {
            Some(RegexCache::new(size))
        }
    }

    /// The number of cached patterns.
    pub fn len(&self) -> (n: usize)
        requires
            self.wf(),
        ensures
            n == self.keys().len(),
            n <= self.limit(),
    {
        lru_len(&self.inner)
    }
}

/// What the cached keys become when `text` has just been used: it stands
/// first, and when it is new to a full cache the last key has left.
pub open spec fn keys_after_use(keys: Seq<Seq<char>>, limit: nat, text: Seq<char>) -> Seq<Seq<char>> {
    if keys.contains(text) {
        seq![text] + keys.remove(keys.index_of(text))
    } else if keys.len() >= limit {
        seq![text] + keys.drop_last()
    } else {
        seq![text] + keys
    }
}

/// Compiles the text, or hands out the pattern that the cache holds for it.
/// A text that does not compile leaves the cache as it was.
pub fn regex_new(cache: &mut RegexCache, text: &str) -> (r: Result<Compiled, ::regex::Error>)
    requires
        old(cache).wf(),
    ensures
        final(cache).wf(),
        final(cache).limit() == old(cache).limit(),
        r is Ok <==> pattern_compiles(text@),
        r is Ok ==> pattern_text(r->Ok_0) == text@,
        r is Ok ==> final(cache).keys() == keys_after_use(old(cache).keys(), old(cache).limit(), text@),
        r is Err ==> final(cache).keys() == old(cache).keys(),
        r is Err ==> compile_failure(text@) == Some(error_parts(r->Err_0)),
{
    let ghost before = cache_entries(cache.inner);
    let ghost keys = cache.keys();
    if let Some(re) = lru_get(&mut cache.inner, text) {
        proof {
            let i = choose|i: int|
                0 <= i < before.len() && (#[trigger] before[i]).0 == text@
                && pattern_text(re) == before[i].1
                && cache_entries(cache.inner) == seq![before[i]] + before.remove(i);
            let after = cache_entries(cache.inner);
            assert(keys[i] == text@);
            assert(keys.contains(text@));
            let j = keys.index_of(text@);
            assert(before[j].0 == text@);
            assert forall|x: int| 0 <= x < after.len() implies {
                let e = #[trigger] after[x];
                e.0 == e.1 && pattern_compiles(e.0)
            } by {
                if x > 0 {
                    assert(after[x] == before.remove(i)[x - 1]);
                    if x - 1 < i {
                        assert(after[x] == before[x - 1]);
                    } else {
                        assert(after[x] == before[x]);
                    }
                }
            }
            assert(keys[j] == text@);
            assert(i == j);
            assert forall|x: int, y: int| 0 <= x < after.len() && 0 <= y < after.len() && x != y
                implies (#[trigger] after[x]).0 != (#[trigger] after[y]).0 by {
                let bx = if x == 0 { i } else if x - 1 < i { x - 1 } else { x };
                let by_ = if y == 0 { i } else if y - 1 < i { y - 1 } else { y };
                assert(after[x] == before[bx]);
                assert(after[y] == before[by_]);
            }
            assert(cache.keys() =~= seq![text@] + keys.remove(i));
        }
        return Ok(re);
    }
    match compile(text) {
        Ok(re) => {
            let copy = clone_pattern(&re);
            lru_put(&mut cache.inner, text.to_owned(), copy);
            proof {
                let after = cache_entries(cache.inner);
                assert(!keys.contains(text@)) by {
                    if keys.contains(text@) {
                        let j = keys.index_of(text@);
                        assert(before[j].0 == text@);
                    }
                }
                assert forall|x: int| 0 <= x < after.len() implies {
                    let e = #[trigger] after[x];
                    e.0 == e.1 && pattern_compiles(e.0)
                } by {
                    if x > 0 {
                        assert(after[x] == before[x - 1]);
                    }
                }
                assert forall|x: int, y: int| 0 <= x < after.len() && 0 <= y < after.len() && x != y
                    implies (#[trigger] after[x]).0 != (#[trigger] after[y]).0 by {
                    if x > 0 {
                        assert(after[x] == before[x - 1]);
                    }
                    if y > 0 {
                        assert(after[y] == before[y - 1]);
                    }
                }
                assert(cache.keys() =~= keys_after_use(keys, old(cache).limit(), text@));
            }
            Ok(re)
        },
        Err(e) => Err(e),
    }
}

impl Regex {
    /// The source text of the expression, without the `/` delimiters.
    pub open spec fn text(&self) -> Seq<char> {
        pattern_text(self.0)
    }

    /// The compiled pattern. Its own `as_str` has no `/` delimiters, which is
    /// why this type does not hand it out by dereferencing.
    pub fn regex(&self) -> (re: &Compiled)
        ensures
            *re == self.0,
    {
        &self.0
    }

    /// Reads an expression from its text. A text with a NUL character is
    /// refused; in any other, each `\/` stands for `/`, and the result is
    /// compiled through the cache. A text that does not compile is refused
    /// with the error of the compiler, whatever the cache holds.
    pub fn from_str(cache: &mut RegexCache, s: &str) -> (r: Result<Regex, RegexError>)
        requires
            old(cache).wf(),
        ensures
            final(cache).wf(),
            final(cache).limit() == old(cache).limit(),
            r is Ok <==> !s@.contains('\0') && pattern_compiles(unescaped(s@)),
            r is Ok ==> r->Ok_0.text() == unescaped(s@),
            r is Ok ==> final(cache).keys() == keys_after_use(
                old(cache).keys(),
                old(cache).limit(),
                unescaped(s@),
            ),
            r is Err ==> final(cache).keys() == old(cache).keys(),
            s@.contains('\0') ==> r is Err && r->Err_0@ == RegexErrorView::Syntax(
                "regex contained NUL byte"@,
            ),
            !s@.contains('\0') && r is Err ==> compile_failure(unescaped(s@)) == Some(r->Err_0@),
    {
        if contains_nul(s) {
            Err(RegexError::Syntax("regex contained NUL byte".to_owned()))
        } else {
            let text = unescape(s);
            match regex_new(cache, text.as_str()) {
                Ok(re) => Ok(Regex(re)),
                Err(e) => Err(convert_error(e)),
            }
        }
    }

    /// How the two source texts compare, code point by code point.
    pub fn cmp(&self, other: &Regex) -> (o: Ordering)
        ensures
            o is Less <==> text_less(self.text(), other.text()),
            o is Equal <==> self.text() == other.text(),
    {
        compare_text(source(&self.0), source(&other.0))
    }

    /// The expression as it is written: its source text between two `/`.
    pub fn to_string(&self) -> (out: String)
        ensures
            out@ == seq!['/'] + self.text() + seq!['/'],
    {
        proof {
            reveal_strlit("/");
            assert("/"@ =~= seq!['/']);
        }
        String::from_str("/").concat(source(&self.0)).concat("/")
    }
}

impl PartialEq for Regex {
    /// Whether the two source texts are the same.
    fn eq(&self, other: &Self) -> (same: bool) {
        match self.cmp(other) {
            Ordering::Equal => true,
            _ => false,
        }
    }
}

impl vstd::std_specs::cmp::PartialEqSpecImpl for Regex {
    open spec fn obeys_eq_spec() -> bool {
        true
    }

    open spec fn eq_spec(&self, other: &Regex) -> bool {
        self.text() == other.text()
    }
}

impl PartialOrd for Regex {
    /// As [`Regex::cmp`]: any two expressions can be compared.
    fn partial_cmp(&self, other: &Self) -> (o: Option<Ordering>) {
        Some(self.cmp(other))
    }
}

impl vstd::std_specs::cmp::PartialOrdSpecImpl for Regex {
    open spec fn obeys_partial_cmp_spec() -> bool {
        true
    }

    open spec fn partial_cmp_spec(&self, other: &Regex) -> Option<Ordering> {
        if self.text() == other.text() {
            Some(Ordering::Equal)
        } else if text_less(self.text(), other.text()) {
            Some(Ordering::Less)
        } else {
            Some(Ordering::Greater)
        }
    }
}

} // verus!
