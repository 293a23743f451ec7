use vstd::prelude::*;

verus! {

/// Which LLM provider is selected.
#[derive(Clone, Copy, PartialEq, Eq, Structural, Debug, Hash)]
pub enum ProviderKind {
    /// Local Ollama (no API key).
    Ollama,
    /// Anthropic (Messages API).
    Claude,
    /// OpenAI.
    OpenAI,
    /// Google Gemini.
    Gemini,
}

impl ProviderKind {
    /// Whether the provider requires an API key.
    pub fn needs_api_key(&self) -> (r: bool)
        ensures
            r == (*self != ProviderKind::Ollama),
    {
        match self {
            ProviderKind::Ollama => false,
            _ => true,
        }
    }
}

/// User AI settings: which provider and model to use, and the API keys.
#[derive(Clone, PartialEq, Eq, Debug)]
pub struct AiSettings {
    /// Active provider.
    pub provider: ProviderKind,
    /// Model identifier to request.
    pub model: String,
    /// API keys per provider, at most one per provider, in provider order.
    /// Absent for providers not configured yet.
    pub api_keys: Vec<(ProviderKind, String)>,
}

/// The key stored for `kind` among `keys` (the first entry for it).
pub open spec fn key_for(keys: Seq<(ProviderKind, String)>, kind: ProviderKind) -> Option<Seq<char>>
    decreases keys.len(),
{
    if keys.len() == 0 {
        None
    } else if keys[0].0 == kind {
        Some(keys[0].1@)
    } else {
        key_for(keys.drop_first(), kind)
    }
}

/// Position of a provider in declaration order (the order `derive(Ord)`
/// gives).
pub open spec fn provider_rank(k: ProviderKind) -> int {
    match k {
        ProviderKind::Ollama => 0,
        ProviderKind::Claude => 1,
        ProviderKind::OpenAI => 2,
        ProviderKind::Gemini => 3,
    }
}

fn provider_rank_exec(k: ProviderKind) -> (r: u8)
    ensures
        r == provider_rank(k),
{
    match k {
        ProviderKind::Ollama => 0,
        ProviderKind::Claude => 1,
        ProviderKind::OpenAI => 2,
        ProviderKind::Gemini => 3,
    }
}

/// Whether a key list holds at most one key per provider, in provider
/// order: the shape of a map from providers to keys.
pub open spec fn keys_ordered(keys: Seq<(ProviderKind, String)>) -> bool {
    forall|i: int, j: int|
        0 <= i < j < keys.len() ==> provider_rank(#[trigger] keys[i].0) < provider_rank(#[trigger] keys[j].0)
}

/// The key of `kind` is that of the entry for `kind`, and there is none
/// when no entry is for `kind`.
proof fn lemma_key_for(keys: Seq<(ProviderKind, String)>, kind: ProviderKind, i: int)
    requires
        keys_ordered(keys),
        0 <= i < keys.len(),
        keys[i].0 == kind,
    ensures
        key_for(keys, kind) == Some(keys[i].1@),
    decreases keys.len(),
{
    if i > 0 {
        assert(keys[0].0 != kind) by {
            assert(provider_rank(keys[0].0) < provider_rank(keys[i].0));
        }
        let d = keys.drop_first();
        assert forall|a: int, b: int| 0 <= a < b < d.len() implies provider_rank(#[trigger] d[a].0)
            < provider_rank(#[trigger] d[b].0) by {
            assert(d[a] == keys[a + 1] && d[b] == keys[b + 1]);
        }
        assert(d[i - 1] == keys[i]);
        lemma_key_for(d, kind, i - 1);
    }
}

/// Without an entry for `kind` there is no key for it.
proof fn lemma_key_for_none(keys: Seq<(ProviderKind, String)>, kind: ProviderKind)
    requires
        forall|i: int| 0 <= i < keys.len() ==> (#[trigger] keys[i]).0 != kind,
    ensures
        key_for(keys, kind) is None,
    decreases keys.len(),
{
    if keys.len() > 0 {
        let d = keys.drop_first();
        assert forall|i: int| 0 <= i < d.len() implies (#[trigger] d[i]).0 != kind by {
            assert(d[i] == keys[i + 1]);
        }
        assert(keys[0].0 != kind);
        lemma_key_for_none(d, kind);
    }
}

/// In an ordered key list, the key of each provider is that of its entry.
proof fn lemma_key_for_any(keys: Seq<(ProviderKind, String)>, kind: ProviderKind)
    requires
        keys_ordered(keys),
    ensures
        key_for(keys, kind) == (if exists|i: int| 0 <= i < keys.len() && (#[trigger] keys[i]).0 == kind {
            Some(keys[choose|i: int| 0 <= i < keys.len() && (#[trigger] keys[i]).0 == kind].1@)
        } else {
            None
        }),
{
    if exists|i: int| 0 <= i < keys.len() && (#[trigger] keys[i]).0 == kind {
        let i = choose|i: int| 0 <= i < keys.len() && (#[trigger] keys[i]).0 == kind;
        lemma_key_for(keys, kind, i);
    } else {
        lemma_key_for_none(keys, kind);
    }
}

impl Default for AiSettings {
    /// Defaults to local Ollama, which needs no key.
    fn default() -> (r: AiSettings)
        ensures
            r.provider == ProviderKind::Ollama,
            r.model@ == "llama3"@,
            r.api_keys@.len() == 0,
    {
        AiSettings {
            provider: ProviderKind::Ollama,
            model: "llama3".to_string(),
            api_keys: Vec::new(),
        }
    }
}

impl AiSettings {
    /// Sets the API key of `kind`, replacing any earlier one, and keeps the
    /// list ordered by provider (`BTreeMap::insert`).
    pub fn set_key(&mut self, kind: ProviderKind, key: String)
        requires
            keys_ordered(old(self).api_keys@),
        ensures
            keys_ordered(final(self).api_keys@),
            final(self).provider == old(self).provider,
            final(self).model == old(self).model,
            key_for(final(self).api_keys@, kind) == Some(key@),
            forall|other: ProviderKind| other != kind ==> key_for(final(self).api_keys@, other) == key_for(old(self).api_keys@, other),
    {
        let ghost k0 = self.api_keys@;
        let rank = provider_rank_exec(kind);
        let mut i: usize = 0;
        while i < self.api_keys.len() && provider_rank_exec(self.api_keys[i].0) < rank
            invariant
                i <= self.api_keys@.len(),
                self.api_keys@ == k0,
                forall|j: int| 0 <= j < i ==> provider_rank(#[trigger] k0[j].0) < rank,
            decreases self.api_keys@.len() - i,
        {
            i += 1;
        }
        let ghost key_v = key@;
        if i < self.api_keys.len() && self.api_keys[i].0 == kind {
            self.api_keys.set(i, (kind, key));
            let ghost k1 = self.api_keys@;
            assert(k1 == k0.update(i as int, k1[i as int]));
            assert forall|a: int, b: int| 0 <= a < b < k1.len() implies provider_rank(#[trigger] k1[a].0)
                < provider_rank(#[trigger] k1[b].0) by {
                assert(provider_rank(k0[a].0) < provider_rank(k0[b].0));
            }
            proof {
                lemma_key_for(k1, kind, i as int);
                assert forall|other: ProviderKind| other != kind implies key_for(k1, other) == key_for(k0, other) by {
                    lemma_key_for_any(k0, other);
                    lemma_key_for_any(k1, other);
                    assert forall|j: int| 0 <= j < k1.len() implies ((#[trigger] k1[j]).0 == other) == (k0[j].0 == other) && (k1[j].0 == other ==> k1[j] == k0[j]) by {
                        if j == i {
                            assert(k1[j].0 == kind);
                        }
                    }
                    if exists|j: int| 0 <= j < k0.len() && (#[trigger] k0[j]).0 == other {
                        let j = choose|j: int| 0 <= j < k0.len() && (#[trigger] k0[j]).0 == other;
                        assert(k1[j].0 == other);
                        lemma_key_for(k0, other, j);
                        lemma_key_for(k1, other, j);
                    } else {
                        assert forall|j: int| 0 <= j < k1.len() implies (#[trigger] k1[j]).0 != other by {
                            assert(k0[j].0 != other);
                        }
                        lemma_key_for_none(k0, other);
                        lemma_key_for_none(k1, other);
                    }
                }
            }
        } else {
            self.api_keys.insert(i, (kind, key));
            let ghost k1 = self.api_keys@;
            assert(k1 == k0.take(i as int).push(k1[i as int]) + k0.skip(i as int));
            assert forall|j: int| 0 <= j < k1.len() implies #[trigger] k1[j] == (if j < i {
                k0[j]
            } else if j == i {
                k1[i as int]
            } else {
                k0[j - 1]
            }) by {}
            assert forall|a: int, b: int| 0 <= a < b < k1.len() implies provider_rank(#[trigger] k1[a].0)
                < provider_rank(#[trigger] k1[b].0) by {
                if b == i {
                    assert(provider_rank(k0[a].0) < rank);
                } else if a == i {
                    assert(k1[b] == k0[b - 1]);
                    assert(provider_rank(k0[b - 1].0) >= rank);
                    if b - 1 > i {
                        assert(provider_rank(k0[i as int].0) < provider_rank(k0[b - 1].0));
                    }
                    assert(k0[i as int].0 != kind || i >= k0.len());
                } else if a < i && b > i {
                    assert(provider_rank(k0[a].0) < rank);
                    assert(provider_rank(k0[b - 1].0) >= rank);
                } else if a > i {
                    assert(provider_rank(k0[a - 1].0) < provider_rank(k0[b - 1].0));
                } else {
                    assert(provider_rank(k0[a].0) < provider_rank(k0[b].0));
                }
            }
            proof {
                lemma_key_for(k1, kind, i as int);
                assert forall|other: ProviderKind| other != kind implies key_for(k1, other) == key_for(k0, other) by {
                    if exists|j: int| 0 <= j < k0.len() && (#[trigger] k0[j]).0 == other {
                        let j = choose|j: int| 0 <= j < k0.len() && (#[trigger] k0[j]).0 == other;
                        lemma_key_for(k0, other, j);
                        if j < i {
                            assert(k1[j] == k0[j]);
                            lemma_key_for(k1, other, j);
                        } else {
                            assert(k1[j + 1] == k0[j]);
                            lemma_key_for(k1, other, j + 1);
                        }
                    } else {
                        assert forall|j: int| 0 <= j < k1.len() implies (#[trigger] k1[j]).0 != other by {
                            if j < i {
                                assert(k0[j].0 != other);
                            } else if j > i {
                                assert(k0[j - 1].0 != other);
                            }
                        }
                        lemma_key_for_none(k0, other);
                        lemma_key_for_none(k1, other);
                    }
                }
            }
        }
    }

    /// Returns the API key for the active provider, if any.
    pub fn active_key(&self) -> (r: Option<&str>)
        ensures
            match r {
                Some(k) => key_for(self.api_keys@, self.provider) == Some(k@),
                None => key_for(self.api_keys@, self.provider) is None,
            },
    {
        let mut i: usize = 0;
        assert(self.api_keys@.skip(0) == self.api_keys@);
        while i < self.api_keys.len()
            invariant
                i <= self.api_keys@.len(),
                key_for(self.api_keys@, self.provider) == key_for(
                    self.api_keys@.skip(i as int),
                    self.provider,
                ),
            decreases self.api_keys@.len() - i,
        {
            assert(self.api_keys@.skip(i as int)[0] == self.api_keys@[i as int]);
            assert(self.api_keys@.skip(i as int).drop_first() == self.api_keys@.skip(i + 1));
            if self.api_keys[i].0 == self.provider {
                return Some(self.api_keys[i].1.as_str());
            }
            i += 1;
        }
        None
    }
}

} // verus!
