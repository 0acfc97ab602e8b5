use vstd::prelude::*;
use crate::value::{keys_ascending, Json, JsonValue};

verus! {

/// The canonical text of a value: text in quotes, taken verbatim; a number
/// as its rendering; `true`, `false`, `null`; an object as `{`, its entries
/// `"key":value` joined by `,` in ascending key order, and `}`.
pub open spec fn text_of(j: Json) -> Seq<char>
    decreases j,
{
    match j {
        Json::Text(s) => seq!['"'] + s + seq!['"'],
        Json::Number(n) => n,
        Json::Boolean(b) => if b {
            seq!['t', 'r', 'u', 'e']
        } else {
            seq!['f', 'a', 'l', 's', 'e']
        },
        Json::Object(es) => seq!['{'] + entries_text(es) + seq!['}'],
        Json::Null => seq!['n', 'u', 'l', 'l'],
    }
}

/// The entries `"key":value` of an object, joined by `,`.
pub open spec fn entries_text(es: Seq<(Seq<char>, Json)>) -> Seq<char>
    decreases es,
{
    if es.len() == 0 {
        Seq::empty()
    } else {
        let init = es.subrange(0, es.len() - 1);
        let last = es[es.len() - 1];
        (if init.len() == 0 {
            Seq::empty()
        } else {
            entries_text(init) + seq![',']
        }) + seq!['"'] + last.0 + seq!['"', ':'] + text_of(last.1)
    }
}

impl JsonValue {
    /// The canonical text of this value; the entries of an object come in
    /// ascending key order.
    pub fn to_text(&self) -> (r: String)
        ensures
            r@ == text_of(self@),
            self@ matches Json::Object(es) ==> keys_ascending(es),
        decreases self@,
    {
        proof {
            reveal_strlit("\"");
            reveal_strlit("true");
            reveal_strlit("false");
            reveal_strlit("null");
            reveal_strlit("{");
            reveal_strlit("}");
            reveal_strlit(",");
            reveal_strlit("\":");
        }
        match self {
            JsonValue::String(s) => {
                let mut out = String::from_str("\"");
                out.append(s.as_str());
                out.append("\"");
                out
            },
            JsonValue::Number(n) => n.clone(),
            JsonValue::Boolean(b) => {
                if *b {
                    String::from_str("true")
                } else {
                    String::from_str("false")
                }
            },
            JsonValue::Null => String::from_str("null"),
            JsonValue::Object(m) => {
                let ghost es = m@;
                let mut out = String::from_str("{");
                let n = m.len();
                let mut i: usize = 0;
                while i < n
                    invariant
                        n == es.len(),
                        es == m@,
                        self@ == Json::Object(es),
                        i <= n,
                        out@ == seq!['{'] + entries_text(es.subrange(0, i as int)),
                    decreases n - i,
                {
                    proof {
                        reveal_strlit("\"");
                        reveal_strlit(",");
                        reveal_strlit("\":");
                    }
                    let ghost prev = es.subrange(0, i as int);
                    let ghost next = es.subrange(0, i + 1);
                    assert(next.subrange(0, i as int) == prev);
                    if i > 0 {
                        out.append(",");
                    }
                    out.append("\"");
                    out.append(m.key_at(i).as_str());
                    out.append("\":");
                    let v = m.value_at(i);
                    assert(decreases_to!(self@ => v@)) by {
                        let e = es[i as int];
                        let j = self@;
                        assert(j->Object_0 == es);
                        assert(decreases_to!(j => j->Object_0));
                        assert(decreases_to!(es => e));
                        assert(decreases_to!(e => e.1));
                    }
                    let t = v.to_text();
                    out.append(t.as_str());
                    assert(entries_text(next) == (if i == 0 {
                        Seq::empty()
                    } else {
                        entries_text(prev) + seq![',']
                    }) + seq!['"'] + es[i as int].0 + seq!['"', ':'] + text_of(es[i as int].1));
                    assert(out@ =~= seq!['{'] + entries_text(next));
                    i += 1;
                }
                assert(es.subrange(0, n as int) == es);
                proof {
                    reveal_strlit("}");
                }
                out.append("}");
                out
            },
        }
    }
}

} // verus!
