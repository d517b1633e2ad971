//! Compound kanji (jukugo) by whole-buffer romaji reading: `nihon` →
//! 日本, `gakkou` → 学校. Every member kanji is codepoint-identical
//! between JP shinjitai and Simplified Chinese.

use vstd::prelude::*;

use crate::text::str_eq;

verus! {

/// A compound and its reading.
pub struct JukugoEntry {
    pub reading: &'static str,
    pub kanji: &'static str,
}

/// The table as (reading, compound) text.
pub open spec fn jukugo_rows() -> Seq<(Seq<char>, Seq<char>)> {
    seq![
        ("nihon"@, "日本"@),
        ("nippon"@, "日本"@),
        ("chuugoku"@, "中国"@),
        ("kyouto"@, "京都"@),
        ("hokkaidou"@, "北海道"@),
        ("gakkou"@, "学校"@),
        ("gakusei"@, "学生"@),
        ("sensei"@, "先生"@),
        ("daigaku"@, "大学"@),
        ("chuugaku"@, "中学"@),
        ("shougakkou"@, "小学校"@),
        ("gakusha"@, "学者"@),
        ("gakubu"@, "学部"@),
        ("bungaku"@, "文学"@),
        ("bunka"@, "文化"@),
        ("kazoku"@, "家族"@),
        ("yuujin"@, "友人"@),
        ("jinkou"@, "人口"@),
        ("shujin"@, "主人"@),
        ("honnin"@, "本人"@),
        ("daijin"@, "大臣"@),
        ("bijin"@, "美人"@),
        ("hakujin"@, "白人"@),
        ("seinen"@, "青年"@),
        ("shounen"@, "少年"@),
        ("roujin"@, "老人"@),
        ("nichiyou"@, "日曜"@),
        ("getsuyou"@, "月曜"@),
        ("kayou"@, "火曜"@),
        ("suiyou"@, "水曜"@),
        ("mokuyou"@, "木曜"@),
        ("kinyou"@, "金曜"@),
        ("doyou"@, "土曜"@),
        ("kongetsu"@, "今月"@),
        ("raigetsu"@, "来月"@),
        ("rainen"@, "来年"@),
        ("shinnen"@, "新年"@),
        ("ichigatsu"@, "一月"@),
        ("nigatsu"@, "二月"@),
        ("sangatsu"@, "三月"@),
        ("ichinichi"@, "一日"@),
        ("ichinen"@, "一年"@),
        ("ichibu"@, "一部"@),
        ("zenbu"@, "全部"@),
        ("hanbun"@, "半分"@),
        ("daihan"@, "大半"@),
        ("daibubun"@, "大部分"@),
        ("zentai"@, "全体"@),
        ("zenkoku"@, "全国"@),
        ("kokunai"@, "国内"@),
        ("kokumin"@, "国民"@),
        ("chuushin"@, "中心"@),
        ("kazan"@, "火山"@),
        ("usui"@, "雨水"@),
        ("sansui"@, "山水"@),
        ("shinrin"@, "森林"@),
        ("kaisui"@, "海水"@),
        ("anshin"@, "安心"@),
        ("anzen"@, "安全"@),
        ("daiji"@, "大事"@),
        ("daihon"@, "大本"@),
        ("meibutsu"@, "名物"@),
        ("meian"@, "名案"@),
        ("jiyuu"@, "自由"@),
        ("jiritsu"@, "自立"@),
        ("jishin"@, "自身"@),
        ("kouhei"@, "公平"@),
        ("kousei"@, "公正"@),
        ("kodai"@, "古代"@),
        ("shinkyuu"@, "新旧"@),
        ("douro"@, "道路"@),
    ]
}

/// Entries as (reading, compound) text.
pub open spec fn jukugo_view(s: Seq<JukugoEntry>) -> Seq<(Seq<char>, Seq<char>)> {
    s.map_values(|e: JukugoEntry| (e.reading@, e.kanji@))
}

/// The compound table, grouped by semantic family.
pub fn jukugo_table() -> (r: Vec<JukugoEntry>)
    ensures
        jukugo_view(r@) == jukugo_rows(),
{
    let mut v: Vec<JukugoEntry> = Vec::new();
    v.push(JukugoEntry { reading: "nihon", kanji: "日本" });
    v.push(JukugoEntry { reading: "nippon", kanji: "日本" });
    v.push(JukugoEntry { reading: "chuugoku", kanji: "中国" });
    v.push(JukugoEntry { reading: "kyouto", kanji: "京都" });
    v.push(JukugoEntry { reading: "hokkaidou", kanji: "北海道" });
    v.push(JukugoEntry { reading: "gakkou", kanji: "学校" });
    v.push(JukugoEntry { reading: "gakusei", kanji: "学生" });
    v.push(JukugoEntry { reading: "sensei", kanji: "先生" });
    v.push(JukugoEntry { reading: "daigaku", kanji: "大学" });
    v.push(JukugoEntry { reading: "chuugaku", kanji: "中学" });
    v.push(JukugoEntry { reading: "shougakkou", kanji: "小学校" });
    v.push(JukugoEntry { reading: "gakusha", kanji: "学者" });
    v.push(JukugoEntry { reading: "gakubu", kanji: "学部" });
    v.push(JukugoEntry { reading: "bungaku", kanji: "文学" });
    v.push(JukugoEntry { reading: "bunka", kanji: "文化" });
    v.push(JukugoEntry { reading: "kazoku", kanji: "家族" });
    v.push(JukugoEntry { reading: "yuujin", kanji: "友人" });
    v.push(JukugoEntry { reading: "jinkou", kanji: "人口" });
    v.push(JukugoEntry { reading: "shujin", kanji: "主人" });
    v.push(JukugoEntry { reading: "honnin", kanji: "本人" });
    v.push(JukugoEntry { reading: "daijin", kanji: "大臣" });
    v.push(JukugoEntry { reading: "bijin", kanji: "美人" });
    v.push(JukugoEntry { reading: "hakujin", kanji: "白人" });
    v.push(JukugoEntry { reading: "seinen", kanji: "青年" });
    v.push(JukugoEntry { reading: "shounen", kanji: "少年" });
    v.push(JukugoEntry { reading: "roujin", kanji: "老人" });
    v.push(JukugoEntry { reading: "nichiyou", kanji: "日曜" });
    v.push(JukugoEntry { reading: "getsuyou", kanji: "月曜" });
    v.push(JukugoEntry { reading: "kayou", kanji: "火曜" });
    v.push(JukugoEntry { reading: "suiyou", kanji: "水曜" });
    v.push(JukugoEntry { reading: "mokuyou", kanji: "木曜" });
    v.push(JukugoEntry { reading: "kinyou", kanji: "金曜" });
    v.push(JukugoEntry { reading: "doyou", kanji: "土曜" });
    v.push(JukugoEntry { reading: "kongetsu", kanji: "今月" });
    v.push(JukugoEntry { reading: "raigetsu", kanji: "来月" });
    v.push(JukugoEntry { reading: "rainen", kanji: "来年" });
    v.push(JukugoEntry { reading: "shinnen", kanji: "新年" });
    v.push(JukugoEntry { reading: "ichigatsu", kanji: "一月" });
    v.push(JukugoEntry { reading: "nigatsu", kanji: "二月" });
    v.push(JukugoEntry { reading: "sangatsu", kanji: "三月" });
    v.push(JukugoEntry { reading: "ichinichi", kanji: "一日" });
    v.push(JukugoEntry { reading: "ichinen", kanji: "一年" });
    v.push(JukugoEntry { reading: "ichibu", kanji: "一部" });
    v.push(JukugoEntry { reading: "zenbu", kanji: "全部" });
    v.push(JukugoEntry { reading: "hanbun", kanji: "半分" });
    v.push(JukugoEntry { reading: "daihan", kanji: "大半" });
    v.push(JukugoEntry { reading: "daibubun", kanji: "大部分" });
    v.push(JukugoEntry { reading: "zentai", kanji: "全体" });
    v.push(JukugoEntry { reading: "zenkoku", kanji: "全国" });
    v.push(JukugoEntry { reading: "kokunai", kanji: "国内" });
    v.push(JukugoEntry { reading: "kokumin", kanji: "国民" });
    v.push(JukugoEntry { reading: "chuushin", kanji: "中心" });
    v.push(JukugoEntry { reading: "kazan", kanji: "火山" });
    v.push(JukugoEntry { reading: "usui", kanji: "雨水" });
    v.push(JukugoEntry { reading: "sansui", kanji: "山水" });
    v.push(JukugoEntry { reading: "shinrin", kanji: "森林" });
    v.push(JukugoEntry { reading: "kaisui", kanji: "海水" });
    v.push(JukugoEntry { reading: "anshin", kanji: "安心" });
    v.push(JukugoEntry { reading: "anzen", kanji: "安全" });
    v.push(JukugoEntry { reading: "daiji", kanji: "大事" });
    v.push(JukugoEntry { reading: "daihon", kanji: "大本" });
    v.push(JukugoEntry { reading: "meibutsu", kanji: "名物" });
    v.push(JukugoEntry { reading: "meian", kanji: "名案" });
    v.push(JukugoEntry { reading: "jiyuu", kanji: "自由" });
    v.push(JukugoEntry { reading: "jiritsu", kanji: "自立" });
    v.push(JukugoEntry { reading: "jishin", kanji: "自身" });
    v.push(JukugoEntry { reading: "kouhei", kanji: "公平" });
    v.push(JukugoEntry { reading: "kousei", kanji: "公正" });
    v.push(JukugoEntry { reading: "kodai", kanji: "古代" });
    v.push(JukugoEntry { reading: "shinkyuu", kanji: "新旧" });
    v.push(JukugoEntry { reading: "douro", kanji: "道路" });
    assert(jukugo_view(v@) =~= jukugo_rows());
    v
}

/// The compounds of `rows` read `s`, in table order.
pub open spec fn compounds_read(rows: Seq<(Seq<char>, Seq<char>)>, s: Seq<char>) -> Seq<Seq<char>>
    decreases rows.len(),
{
    if rows.len() == 0 {
        Seq::empty()
    } else if rows.last().0 == s {
        compounds_read(rows.drop_last(), s).push(rows.last().1)
    } else {
        compounds_read(rows.drop_last(), s)
    }
}

/// Every compound whose reading is exactly `s`.
pub fn lookup_by_reading(s: &str) -> (r: Vec<&'static str>)
    ensures
        r@.map_values(|w: &'static str| w@) == compounds_read(jukugo_rows(), s@),
{
    let t = jukugo_table();
    let ghost rows = jukugo_view(t@);
    let mut out: Vec<&'static str> = Vec::new();
    let mut i: usize = 0;
    while i < t.len()
        invariant
            i <= t@.len(),
            rows == jukugo_view(t@),
            rows == jukugo_rows(),
            out@.map_values(|w: &'static str| w@) == compounds_read(rows.take(i as int), s@),
        decreases t@.len() - i,
    {
        assert(rows.take(i + 1).drop_last() =~= rows.take(i as int));
        assert(rows.take(i + 1).last() == rows[i as int]);
        if str_eq(t[i].reading, s) {
            let ghost before = out@;
            out.push(t[i].kanji);
            assert(out@.map_values(|w: &'static str| w@) =~= before.map_values(|w: &'static str| w@).push(t@[i as int].kanji@));
        }
        i = i + 1;
    }
    assert(rows.take(i as int) =~= rows);
    out
}

} // verus!
