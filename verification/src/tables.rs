//! The predefined capitals and major cities of the 1450 scenario.

use vstd::prelude::*;
use crate::settlement::table_view;

verus! {

/// The view of a concatenation of tables is the concatenation of their views.
pub proof fn lemma_table_view_add(a: Seq<(String, String)>, b: Seq<(String, String)>)
    ensures
        table_view(a + b) =~= table_view(a) + table_view(b),
{
}

/// Part 1 of [`capital_names`].
pub open spec fn capital_names_0() -> Seq<(Seq<char>, Seq<char>)> {
    seq![
        ("paris"@, "Paris"@),
        ("london"@, "London"@),
        ("rome"@, "Rome"@),
        ("roma"@, "Rome"@),
        ("constantinople"@, "Constantinople"@),
        ("venice"@, "Venice"@),
        ("venezia"@, "Venice"@),
        ("genoa"@, "Genoa"@),
        ("genova"@, "Genoa"@),
        ("lisbon"@, "Lisbon"@),
        ("lisboa"@, "Lisbon"@),
        ("toledo"@, "Toledo"@),
        ("madrid"@, "Madrid"@),
        ("wien"@, "Vienna"@),
    ]
}

fn capital_table_0() -> (t: Vec<(String, String)>)
    ensures
        table_view(t@) == capital_names_0(),
{
    let mut t: Vec<(String, String)> = Vec::new();
    t.push(("paris".to_owned(), "Paris".to_owned()));
    t.push(("london".to_owned(), "London".to_owned()));
    t.push(("rome".to_owned(), "Rome".to_owned()));
    t.push(("roma".to_owned(), "Rome".to_owned()));
    t.push(("constantinople".to_owned(), "Constantinople".to_owned()));
    t.push(("venice".to_owned(), "Venice".to_owned()));
    t.push(("venezia".to_owned(), "Venice".to_owned()));
    t.push(("genoa".to_owned(), "Genoa".to_owned()));
    t.push(("genova".to_owned(), "Genoa".to_owned()));
    t.push(("lisbon".to_owned(), "Lisbon".to_owned()));
    t.push(("lisboa".to_owned(), "Lisbon".to_owned()));
    t.push(("toledo".to_owned(), "Toledo".to_owned()));
    t.push(("madrid".to_owned(), "Madrid".to_owned()));
    t.push(("wien".to_owned(), "Vienna".to_owned()));
    assert(table_view(t@) =~= capital_names_0());
    t
}

/// Part 2 of [`capital_names`].
pub open spec fn capital_names_1() -> Seq<(Seq<char>, Seq<char>)> {
    seq![
        ("vienna"@, "Vienna"@),
        ("krakow"@, "Kraków"@),
        ("cracow"@, "Kraków"@),
        ("prague"@, "Prague"@),
        ("praha"@, "Prague"@),
        ("moscow"@, "Moscow"@),
        ("moskva"@, "Moscow"@),
        ("novgorod"@, "Novgorod"@),
        ("stockholm"@, "Stockholm"@),
        ("copenhagen"@, "Copenhagen"@),
        ("kobenhavn"@, "Copenhagen"@),
        ("edinburgh"@, "Edinburgh"@),
        ("dublin"@, "Dublin"@),
        ("naples"@, "Naples"@),
    ]
}

fn capital_table_1() -> (t: Vec<(String, String)>)
    ensures
        table_view(t@) == capital_names_1(),
{
    let mut t: Vec<(String, String)> = Vec::new();
    t.push(("vienna".to_owned(), "Vienna".to_owned()));
    t.push(("krakow".to_owned(), "Kraków".to_owned()));
    t.push(("cracow".to_owned(), "Kraków".to_owned()));
    t.push(("prague".to_owned(), "Prague".to_owned()));
    t.push(("praha".to_owned(), "Prague".to_owned()));
    t.push(("moscow".to_owned(), "Moscow".to_owned()));
    t.push(("moskva".to_owned(), "Moscow".to_owned()));
    t.push(("novgorod".to_owned(), "Novgorod".to_owned()));
    t.push(("stockholm".to_owned(), "Stockholm".to_owned()));
    t.push(("copenhagen".to_owned(), "Copenhagen".to_owned()));
    t.push(("kobenhavn".to_owned(), "Copenhagen".to_owned()));
    t.push(("edinburgh".to_owned(), "Edinburgh".to_owned()));
    t.push(("dublin".to_owned(), "Dublin".to_owned()));
    t.push(("naples".to_owned(), "Naples".to_owned()));
    assert(table_view(t@) =~= capital_names_1());
    t
}

/// Part 3 of [`capital_names`].
pub open spec fn capital_names_2() -> Seq<(Seq<char>, Seq<char>)> {
    seq![
        ("napoli"@, "Naples"@),
        ("florence"@, "Florence"@),
        ("firenze"@, "Florence"@),
        ("milan"@, "Milan"@),
        ("milano"@, "Milan"@),
        ("bruges"@, "Bruges"@),
        ("amsterdam"@, "Amsterdam"@),
        ("cologne"@, "Cologne"@),
        ("koln"@, "Cologne"@),
        ("nuremberg"@, "Nuremberg"@),
        ("nurnberg"@, "Nuremberg"@),
        ("ragusa"@, "Ragusa"@),
        ("dubrovnik"@, "Ragusa"@),
        ("athens"@, "Athens"@),
    ]
}

fn capital_table_2() -> (t: Vec<(String, String)>)
    ensures
        table_view(t@) == capital_names_2(),
{
    let mut t: Vec<(String, String)> = Vec::new();
    t.push(("napoli".to_owned(), "Naples".to_owned()));
    t.push(("florence".to_owned(), "Florence".to_owned()));
    t.push(("firenze".to_owned(), "Florence".to_owned()));
    t.push(("milan".to_owned(), "Milan".to_owned()));
    t.push(("milano".to_owned(), "Milan".to_owned()));
    t.push(("bruges".to_owned(), "Bruges".to_owned()));
    t.push(("amsterdam".to_owned(), "Amsterdam".to_owned()));
    t.push(("cologne".to_owned(), "Cologne".to_owned()));
    t.push(("koln".to_owned(), "Cologne".to_owned()));
    t.push(("nuremberg".to_owned(), "Nuremberg".to_owned()));
    t.push(("nurnberg".to_owned(), "Nuremberg".to_owned()));
    t.push(("ragusa".to_owned(), "Ragusa".to_owned()));
    t.push(("dubrovnik".to_owned(), "Ragusa".to_owned()));
    t.push(("athens".to_owned(), "Athens".to_owned()));
    assert(table_view(t@) =~= capital_names_2());
    t
}

/// Part 4 of [`capital_names`].
pub open spec fn capital_names_3() -> Seq<(Seq<char>, Seq<char>)> {
    seq![
        ("trebizond"@, "Trebizond"@),
        ("trabzon"@, "Trebizond"@),
        ("antwerp"@, "Antwerp"@),
        ("valencia"@, "Valencia"@),
        ("seville"@, "Seville"@),
        ("sevilla"@, "Seville"@),
        ("granada"@, "Granada"@),
        ("bordeaux"@, "Bordeaux"@),
        ("marseille"@, "Marseille"@),
        ("lyon"@, "Lyon"@),
        ("frankfurt"@, "Frankfurt"@),
        ("munich"@, "Munich"@),
        ("munchen"@, "Munich"@),
        ("budapest"@, "Buda"@),
    ]
}

fn capital_table_3() -> (t: Vec<(String, String)>)
    ensures
        table_view(t@) == capital_names_3(),
{
    let mut t: Vec<(String, String)> = Vec::new();
    t.push(("trebizond".to_owned(), "Trebizond".to_owned()));
    t.push(("trabzon".to_owned(), "Trebizond".to_owned()));
    t.push(("antwerp".to_owned(), "Antwerp".to_owned()));
    t.push(("valencia".to_owned(), "Valencia".to_owned()));
    t.push(("seville".to_owned(), "Seville".to_owned()));
    t.push(("sevilla".to_owned(), "Seville".to_owned()));
    t.push(("granada".to_owned(), "Granada".to_owned()));
    t.push(("bordeaux".to_owned(), "Bordeaux".to_owned()));
    t.push(("marseille".to_owned(), "Marseille".to_owned()));
    t.push(("lyon".to_owned(), "Lyon".to_owned()));
    t.push(("frankfurt".to_owned(), "Frankfurt".to_owned()));
    t.push(("munich".to_owned(), "Munich".to_owned()));
    t.push(("munchen".to_owned(), "Munich".to_owned()));
    t.push(("budapest".to_owned(), "Buda".to_owned()));
    assert(table_view(t@) =~= capital_names_3());
    t
}

/// Part 5 of [`capital_names`].
pub open spec fn capital_names_4() -> Seq<(Seq<char>, Seq<char>)> {
    seq![
        ("buda"@, "Buda"@),
        ("warsaw"@, "Warsaw"@),
        ("warszawa"@, "Warsaw"@),
        ("vilnius"@, "Vilnius"@),
        ("riga"@, "Riga"@),
        ("reval"@, "Reval"@),
        ("tallinn"@, "Reval"@),
        ("bern"@, "Bern"@),
        ("cairo"@, "Cairo"@),
        ("al_qahirah"@, "Cairo"@),
        ("alexandria"@, "Alexandria"@),
        ("damascus"@, "Damascus"@),
        ("dimashq"@, "Damascus"@),
        ("aleppo"@, "Aleppo"@),
    ]
}

fn capital_table_4() -> (t: Vec<(String, String)>)
    ensures
        table_view(t@) == capital_names_4(),
{
    let mut t: Vec<(String, String)> = Vec::new();
    t.push(("buda".to_owned(), "Buda".to_owned()));
    t.push(("warsaw".to_owned(), "Warsaw".to_owned()));
    t.push(("warszawa".to_owned(), "Warsaw".to_owned()));
    t.push(("vilnius".to_owned(), "Vilnius".to_owned()));
    t.push(("riga".to_owned(), "Riga".to_owned()));
    t.push(("reval".to_owned(), "Reval".to_owned()));
    t.push(("tallinn".to_owned(), "Reval".to_owned()));
    t.push(("bern".to_owned(), "Bern".to_owned()));
    t.push(("cairo".to_owned(), "Cairo".to_owned()));
    t.push(("al_qahirah".to_owned(), "Cairo".to_owned()));
    t.push(("alexandria".to_owned(), "Alexandria".to_owned()));
    t.push(("damascus".to_owned(), "Damascus".to_owned()));
    t.push(("dimashq".to_owned(), "Damascus".to_owned()));
    t.push(("aleppo".to_owned(), "Aleppo".to_owned()));
    assert(table_view(t@) =~= capital_names_4());
    t
}

/// Part 6 of [`capital_names`].
pub open spec fn capital_names_5() -> Seq<(Seq<char>, Seq<char>)> {
    seq![
        ("halab"@, "Aleppo"@),
        ("baghdad"@, "Baghdad"@),
        ("jerusalem"@, "Jerusalem"@),
        ("al_quds"@, "Jerusalem"@),
        ("mecca"@, "Mecca"@),
        ("makkah"@, "Mecca"@),
        ("medina"@, "Medina"@),
        ("tabriz"@, "Tabriz"@),
        ("isfahan"@, "Isfahan"@),
        ("shiraz"@, "Shiraz"@),
        ("samarkand"@, "Samarkand"@),
        ("bukhara"@, "Bukhara"@),
        ("herat"@, "Herat"@),
        ("tunis"@, "Tunis"@),
    ]
}

fn capital_table_5() -> (t: Vec<(String, String)>)
    ensures
        table_view(t@) == capital_names_5(),
{
    let mut t: Vec<(String, String)> = Vec::new();
    t.push(("halab".to_owned(), "Aleppo".to_owned()));
    t.push(("baghdad".to_owned(), "Baghdad".to_owned()));
    t.push(("jerusalem".to_owned(), "Jerusalem".to_owned()));
    t.push(("al_quds".to_owned(), "Jerusalem".to_owned()));
    t.push(("mecca".to_owned(), "Mecca".to_owned()));
    t.push(("makkah".to_owned(), "Mecca".to_owned()));
    t.push(("medina".to_owned(), "Medina".to_owned()));
    t.push(("tabriz".to_owned(), "Tabriz".to_owned()));
    t.push(("isfahan".to_owned(), "Isfahan".to_owned()));
    t.push(("shiraz".to_owned(), "Shiraz".to_owned()));
    t.push(("samarkand".to_owned(), "Samarkand".to_owned()));
    t.push(("bukhara".to_owned(), "Bukhara".to_owned()));
    t.push(("herat".to_owned(), "Herat".to_owned()));
    t.push(("tunis".to_owned(), "Tunis".to_owned()));
    assert(table_view(t@) =~= capital_names_5());
    t
}

/// Part 7 of [`capital_names`].
pub open spec fn capital_names_6() -> Seq<(Seq<char>, Seq<char>)> {
    seq![
        ("algiers"@, "Algiers"@),
        ("al_jazair"@, "Algiers"@),
        ("fez"@, "Fez"@),
        ("marrakesh"@, "Marrakesh"@),
        ("tripoli"@, "Tripoli"@),
        ("basra"@, "Basra"@),
        ("muscat"@, "Muscat"@),
        ("aden"@, "Aden"@),
        ("sanaa"@, "Sana'a"@),
        ("tehran"@, "Tehran"@),
        ("baku"@, "Baku"@),
        ("beijing"@, "Beijing"@),
        ("peking"@, "Beijing"@),
        ("nanjing"@, "Nanjing"@),
    ]
}

fn capital_table_6() -> (t: Vec<(String, String)>)
    ensures
        table_view(t@) == capital_names_6(),
{
    let mut t: Vec<(String, String)> = Vec::new();
    t.push(("algiers".to_owned(), "Algiers".to_owned()));
    t.push(("al_jazair".to_owned(), "Algiers".to_owned()));
    t.push(("fez".to_owned(), "Fez".to_owned()));
    t.push(("marrakesh".to_owned(), "Marrakesh".to_owned()));
    t.push(("tripoli".to_owned(), "Tripoli".to_owned()));
    t.push(("basra".to_owned(), "Basra".to_owned()));
    t.push(("muscat".to_owned(), "Muscat".to_owned()));
    t.push(("aden".to_owned(), "Aden".to_owned()));
    t.push(("sanaa".to_owned(), "Sana'a".to_owned()));
    t.push(("tehran".to_owned(), "Tehran".to_owned()));
    t.push(("baku".to_owned(), "Baku".to_owned()));
    t.push(("beijing".to_owned(), "Beijing".to_owned()));
    t.push(("peking".to_owned(), "Beijing".to_owned()));
    t.push(("nanjing".to_owned(), "Nanjing".to_owned()));
    assert(table_view(t@) =~= capital_names_6());
    t
}

/// Part 8 of [`capital_names`].
pub open spec fn capital_names_7() -> Seq<(Seq<char>, Seq<char>)> {
    seq![
        ("nanking"@, "Nanjing"@),
        ("hangzhou"@, "Hangzhou"@),
        ("guangzhou"@, "Guangzhou"@),
        ("canton"@, "Guangzhou"@),
        ("changan"@, "Chang'an"@),
        ("xian"@, "Xi'an"@),
        ("chengdu"@, "Chengdu"@),
        ("luoyang"@, "Luoyang"@),
        ("kyoto"@, "Kyoto"@),
        ("kamakura"@, "Kamakura"@),
        ("osaka"@, "Osaka"@),
        ("edo"@, "Edo"@),
        ("tokyo"@, "Edo"@),
        ("seoul"@, "Hanseong"@),
    ]
}

fn capital_table_7() -> (t: Vec<(String, String)>)
    ensures
        table_view(t@) == capital_names_7(),
{
    let mut t: Vec<(String, String)> = Vec::new();
    t.push(("nanking".to_owned(), "Nanjing".to_owned()));
    t.push(("hangzhou".to_owned(), "Hangzhou".to_owned()));
    t.push(("guangzhou".to_owned(), "Guangzhou".to_owned()));
    t.push(("canton".to_owned(), "Guangzhou".to_owned()));
    t.push(("changan".to_owned(), "Chang'an".to_owned()));
    t.push(("xian".to_owned(), "Xi'an".to_owned()));
    t.push(("chengdu".to_owned(), "Chengdu".to_owned()));
    t.push(("luoyang".to_owned(), "Luoyang".to_owned()));
    t.push(("kyoto".to_owned(), "Kyoto".to_owned()));
    t.push(("kamakura".to_owned(), "Kamakura".to_owned()));
    t.push(("osaka".to_owned(), "Osaka".to_owned()));
    t.push(("edo".to_owned(), "Edo".to_owned()));
    t.push(("tokyo".to_owned(), "Edo".to_owned()));
    t.push(("seoul".to_owned(), "Hanseong".to_owned()));
    assert(table_view(t@) =~= capital_names_7());
    t
}

/// Part 9 of [`capital_names`].
pub open spec fn capital_names_8() -> Seq<(Seq<char>, Seq<char>)> {
    seq![
        ("hanseong"@, "Hanseong"@),
        ("pyongyang"@, "Pyongyang"@),
        ("delhi"@, "Delhi"@),
        ("agra"@, "Agra"@),
        ("vijayanagara"@, "Vijayanagara"@),
        ("hampi"@, "Vijayanagara"@),
        ("calicut"@, "Calicut"@),
        ("kozhikode"@, "Calicut"@),
        ("gaur"@, "Gaur"@),
        ("chittagong"@, "Chittagong"@),
        ("ava"@, "Ava"@),
        ("ayutthaya"@, "Ayutthaya"@),
        ("angkor"@, "Angkor"@),
        ("malacca"@, "Malacca"@),
    ]
}

fn capital_table_8() -> (t: Vec<(String, String)>)
    ensures
        table_view(t@) == capital_names_8(),
{
    let mut t: Vec<(String, String)> = Vec::new();
    t.push(("hanseong".to_owned(), "Hanseong".to_owned()));
    t.push(("pyongyang".to_owned(), "Pyongyang".to_owned()));
    t.push(("delhi".to_owned(), "Delhi".to_owned()));
    t.push(("agra".to_owned(), "Agra".to_owned()));
    t.push(("vijayanagara".to_owned(), "Vijayanagara".to_owned()));
    t.push(("hampi".to_owned(), "Vijayanagara".to_owned()));
    t.push(("calicut".to_owned(), "Calicut".to_owned()));
    t.push(("kozhikode".to_owned(), "Calicut".to_owned()));
    t.push(("gaur".to_owned(), "Gaur".to_owned()));
    t.push(("chittagong".to_owned(), "Chittagong".to_owned()));
    t.push(("ava".to_owned(), "Ava".to_owned()));
    t.push(("ayutthaya".to_owned(), "Ayutthaya".to_owned()));
    t.push(("angkor".to_owned(), "Angkor".to_owned()));
    t.push(("malacca".to_owned(), "Malacca".to_owned()));
    assert(table_view(t@) =~= capital_names_8());
    t
}

/// Part 10 of [`capital_names`].
pub open spec fn capital_names_9() -> Seq<(Seq<char>, Seq<char>)> {
    seq![
        ("melaka"@, "Malacca"@),
        ("brunei"@, "Brunei"@),
        ("majapahit"@, "Majapahit"@),
        ("samudera"@, "Samudera"@),
        ("lahore"@, "Lahore"@),
        ("dhaka"@, "Dhaka"@),
        ("lhasa"@, "Lhasa"@),
        ("kashgar"@, "Kashgar"@),
        ("tashkent"@, "Tashkent"@),
        ("tenochtitlan"@, "Tenochtitlan"@),
        ("mexico"@, "Tenochtitlan"@),
        ("texcoco"@, "Texcoco"@),
        ("tlaxcala"@, "Tlaxcala"@),
        ("cusco"@, "Cusco"@),
    ]
}

fn capital_table_9() -> (t: Vec<(String, String)>)
    ensures
        table_view(t@) == capital_names_9(),
{
    let mut t: Vec<(String, String)> = Vec::new();
    t.push(("melaka".to_owned(), "Malacca".to_owned()));
    t.push(("brunei".to_owned(), "Brunei".to_owned()));
    t.push(("majapahit".to_owned(), "Majapahit".to_owned()));
    t.push(("samudera".to_owned(), "Samudera".to_owned()));
    t.push(("lahore".to_owned(), "Lahore".to_owned()));
    t.push(("dhaka".to_owned(), "Dhaka".to_owned()));
    t.push(("lhasa".to_owned(), "Lhasa".to_owned()));
    t.push(("kashgar".to_owned(), "Kashgar".to_owned()));
    t.push(("tashkent".to_owned(), "Tashkent".to_owned()));
    t.push(("tenochtitlan".to_owned(), "Tenochtitlan".to_owned()));
    t.push(("mexico".to_owned(), "Tenochtitlan".to_owned()));
    t.push(("texcoco".to_owned(), "Texcoco".to_owned()));
    t.push(("tlaxcala".to_owned(), "Tlaxcala".to_owned()));
    t.push(("cusco".to_owned(), "Cusco".to_owned()));
    assert(table_view(t@) =~= capital_names_9());
    t
}

/// Part 11 of [`capital_names`].
pub open spec fn capital_names_10() -> Seq<(Seq<char>, Seq<char>)> {
    seq![
        ("cuzco"@, "Cusco"@),
        ("chan_chan"@, "Chan Chan"@),
        ("tiwanaku"@, "Tiwanaku"@),
        ("cahokia"@, "Cahokia"@),
        ("chichen_itza"@, "Chichén Itzá"@),
        ("tikal"@, "Tikal"@),
        ("quito"@, "Quito"@),
        ("gao"@, "Gao"@),
        ("timbuktu"@, "Timbuktu"@),
        ("jenne"@, "Djenné"@),
        ("djenne"@, "Djenné"@),
        ("niani"@, "Niani"@),
        ("benin"@, "Benin"@),
        ("kano"@, "Kano"@),
    ]
}

fn capital_table_10() -> (t: Vec<(String, String)>)
    ensures
        table_view(t@) == capital_names_10(),
{
    let mut t: Vec<(String, String)> = Vec::new();
    t.push(("cuzco".to_owned(), "Cusco".to_owned()));
    t.push(("chan_chan".to_owned(), "Chan Chan".to_owned()));
    t.push(("tiwanaku".to_owned(), "Tiwanaku".to_owned()));
    t.push(("cahokia".to_owned(), "Cahokia".to_owned()));
    t.push(("chichen_itza".to_owned(), "Chichén Itzá".to_owned()));
    t.push(("tikal".to_owned(), "Tikal".to_owned()));
    t.push(("quito".to_owned(), "Quito".to_owned()));
    t.push(("gao".to_owned(), "Gao".to_owned()));
    t.push(("timbuktu".to_owned(), "Timbuktu".to_owned()));
    t.push(("jenne".to_owned(), "Djenné".to_owned()));
    t.push(("djenne".to_owned(), "Djenné".to_owned()));
    t.push(("niani".to_owned(), "Niani".to_owned()));
    t.push(("benin".to_owned(), "Benin".to_owned()));
    t.push(("kano".to_owned(), "Kano".to_owned()));
    assert(table_view(t@) =~= capital_names_10());
    t
}

/// Part 12 of [`capital_names`].
pub open spec fn capital_names_11() -> Seq<(Seq<char>, Seq<char>)> {
    seq![
        ("ife"@, "Ife"@),
        ("great_zimbabwe"@, "Great Zimbabwe"@),
        ("kilwa"@, "Kilwa"@),
        ("mombasa"@, "Mombasa"@),
        ("mogadishu"@, "Mogadishu"@),
        ("gondar"@, "Gondar"@),
        ("axum"@, "Axum"@),
        ("maravi"@, "Maravi"@),
        ("sofala"@, "Sofala"@),
    ]
}

fn capital_table_11() -> (t: Vec<(String, String)>)
    ensures
        table_view(t@) == capital_names_11(),
{
    let mut t: Vec<(String, String)> = Vec::new();
    t.push(("ife".to_owned(), "Ife".to_owned()));
    t.push(("great_zimbabwe".to_owned(), "Great Zimbabwe".to_owned()));
    t.push(("kilwa".to_owned(), "Kilwa".to_owned()));
    t.push(("mombasa".to_owned(), "Mombasa".to_owned()));
    t.push(("mogadishu".to_owned(), "Mogadishu".to_owned()));
    t.push(("gondar".to_owned(), "Gondar".to_owned()));
    t.push(("axum".to_owned(), "Axum".to_owned()));
    t.push(("maravi".to_owned(), "Maravi".to_owned()));
    t.push(("sofala".to_owned(), "Sofala".to_owned()));
    assert(table_view(t@) =~= capital_names_11());
    t
}

/// Predefined capitals of 1450: lower-case province id and display name.
pub open spec fn capital_names() -> Seq<(Seq<char>, Seq<char>)> {
    capital_names_0()
        + capital_names_1()
        + capital_names_2()
        + capital_names_3()
        + capital_names_4()
        + capital_names_5()
        + capital_names_6()
        + capital_names_7()
        + capital_names_8()
        + capital_names_9()
        + capital_names_10()
        + capital_names_11()
}

/// The table [`capital_names`], as owned strings.
pub fn capital_table() -> (t: Vec<(String, String)>)
    ensures
        table_view(t@) == capital_names(),
{
    let mut t: Vec<(String, String)> = Vec::new();
    let mut part = capital_table_0();
    let ghost before = t@;
    let ghost added = part@;
    t.append(&mut part);
    proof {
        lemma_table_view_add(before, added);
    }
    assert(table_view(t@) =~= Seq::<(Seq<char>, Seq<char>)>::empty() + capital_names_0());
    let mut part = capital_table_1();
    let ghost before = t@;
    let ghost added = part@;
    t.append(&mut part);
    proof {
        lemma_table_view_add(before, added);
    }
    assert(table_view(t@) =~= Seq::<(Seq<char>, Seq<char>)>::empty() + capital_names_0() + capital_names_1());
    let mut part = capital_table_2();
    let ghost before = t@;
    let ghost added = part@;
    t.append(&mut part);
    proof {
        lemma_table_view_add(before, added);
    }
    assert(table_view(t@) =~= Seq::<(Seq<char>, Seq<char>)>::empty() + capital_names_0() + capital_names_1() + capital_names_2());
    let mut part = capital_table_3();
    let ghost before = t@;
    let ghost added = part@;
    t.append(&mut part);
    proof {
        lemma_table_view_add(before, added);
    }
    assert(table_view(t@) =~= Seq::<(Seq<char>, Seq<char>)>::empty() + capital_names_0() + capital_names_1() + capital_names_2() + capital_names_3());
    let mut part = capital_table_4();
    let ghost before = t@;
    let ghost added = part@;
    t.append(&mut part);
    proof {
        lemma_table_view_add(before, added);
    }
    assert(table_view(t@) =~= Seq::<(Seq<char>, Seq<char>)>::empty() + capital_names_0() + capital_names_1() + capital_names_2() + capital_names_3() + capital_names_4());
    let mut part = capital_table_5();
    let ghost before = t@;
    let ghost added = part@;
    t.append(&mut part);
    proof {
        lemma_table_view_add(before, added);
    }
    assert(table_view(t@) =~= Seq::<(Seq<char>, Seq<char>)>::empty() + capital_names_0() + capital_names_1() + capital_names_2() + capital_names_3() + capital_names_4() + capital_names_5());
    let mut part = capital_table_6();
    let ghost before = t@;
    let ghost added = part@;
    t.append(&mut part);
    proof {
        lemma_table_view_add(before, added);
    }
    assert(table_view(t@) =~= Seq::<(Seq<char>, Seq<char>)>::empty() + capital_names_0() + capital_names_1() + capital_names_2() + capital_names_3() + capital_names_4() + capital_names_5() + capital_names_6());
    let mut part = capital_table_7();
    let ghost before = t@;
    let ghost added = part@;
    t.append(&mut part);
    proof {
        lemma_table_view_add(before, added);
    }
    assert(table_view(t@) =~= Seq::<(Seq<char>, Seq<char>)>::empty() + capital_names_0() + capital_names_1() + capital_names_2() + capital_names_3() + capital_names_4() + capital_names_5() + capital_names_6() + capital_names_7());
    let mut part = capital_table_8();
    let ghost before = t@;
    let ghost added = part@;
    t.append(&mut part);
    proof {
        lemma_table_view_add(before, added);
    }
    assert(table_view(t@) =~= Seq::<(Seq<char>, Seq<char>)>::empty() + capital_names_0() + capital_names_1() + capital_names_2() + capital_names_3() + capital_names_4() + capital_names_5() + capital_names_6() + capital_names_7() + capital_names_8());
    let mut part = capital_table_9();
    let ghost before = t@;
    let ghost added = part@;
    t.append(&mut part);
    proof {
        lemma_table_view_add(before, added);
    }
    assert(table_view(t@) =~= Seq::<(Seq<char>, Seq<char>)>::empty() + capital_names_0() + capital_names_1() + capital_names_2() + capital_names_3() + capital_names_4() + capital_names_5() + capital_names_6() + capital_names_7() + capital_names_8() + capital_names_9());
    let mut part = capital_table_10();
    let ghost before = t@;
    let ghost added = part@;
    t.append(&mut part);
    proof {
        lemma_table_view_add(before, added);
    }
    assert(table_view(t@) =~= Seq::<(Seq<char>, Seq<char>)>::empty() + capital_names_0() + capital_names_1() + capital_names_2() + capital_names_3() + capital_names_4() + capital_names_5() + capital_names_6() + capital_names_7() + capital_names_8() + capital_names_9() + capital_names_10());
    let mut part = capital_table_11();
    let ghost before = t@;
    let ghost added = part@;
    t.append(&mut part);
    proof {
        lemma_table_view_add(before, added);
    }
    assert(table_view(t@) =~= Seq::<(Seq<char>, Seq<char>)>::empty() + capital_names_0() + capital_names_1() + capital_names_2() + capital_names_3() + capital_names_4() + capital_names_5() + capital_names_6() + capital_names_7() + capital_names_8() + capital_names_9() + capital_names_10() + capital_names_11());
    assert(table_view(t@) =~= capital_names());
    t
}

/// Part 1 of [`city_names`].
pub open spec fn city_names_0() -> Seq<(Seq<char>, Seq<char>)> {
    seq![
        ("rouen"@, "Rouen"@),
        ("nantes"@, "Nantes"@),
        ("toulouse"@, "Toulouse"@),
        ("dijon"@, "Dijon"@),
        ("strasbourg"@, "Strasbourg"@),
        ("orleans"@, "Orléans"@),
        ("rennes"@, "Rennes"@),
        ("reims"@, "Reims"@),
        ("york"@, "York"@),
        ("bristol"@, "Bristol"@),
        ("norwich"@, "Norwich"@),
        ("oxford"@, "Oxford"@),
        ("cambridge"@, "Cambridge"@),
        ("newcastle"@, "Newcastle"@),
    ]
}

fn city_table_0() -> (t: Vec<(String, String)>)
    ensures
        table_view(t@) == city_names_0(),
{
    let mut t: Vec<(String, String)> = Vec::new();
    t.push(("rouen".to_owned(), "Rouen".to_owned()));
    t.push(("nantes".to_owned(), "Nantes".to_owned()));
    t.push(("toulouse".to_owned(), "Toulouse".to_owned()));
    t.push(("dijon".to_owned(), "Dijon".to_owned()));
    t.push(("strasbourg".to_owned(), "Strasbourg".to_owned()));
    t.push(("orleans".to_owned(), "Orléans".to_owned()));
    t.push(("rennes".to_owned(), "Rennes".to_owned()));
    t.push(("reims".to_owned(), "Reims".to_owned()));
    t.push(("york".to_owned(), "York".to_owned()));
    t.push(("bristol".to_owned(), "Bristol".to_owned()));
    t.push(("norwich".to_owned(), "Norwich".to_owned()));
    t.push(("oxford".to_owned(), "Oxford".to_owned()));
    t.push(("cambridge".to_owned(), "Cambridge".to_owned()));
    t.push(("newcastle".to_owned(), "Newcastle".to_owned()));
    assert(table_view(t@) =~= city_names_0());
    t
}

/// Part 2 of [`city_names`].
pub open spec fn city_names_1() -> Seq<(Seq<char>, Seq<char>)> {
    seq![
        ("aberdeen"@, "Aberdeen"@),
        ("barcelona"@, "Barcelona"@),
        ("zaragoza"@, "Zaragoza"@),
        ("cordoba"@, "Córdoba"@),
        ("salamanca"@, "Salamanca"@),
        ("porto"@, "Porto"@),
        ("coimbra"@, "Coimbra"@),
        ("hamburg"@, "Hamburg"@),
        ("lubeck"@, "Lübeck"@),
        ("bremen"@, "Bremen"@),
        ("augsburg"@, "Augsburg"@),
        ("ulm"@, "Ulm"@),
        ("leipzig"@, "Leipzig"@),
        ("dresden"@, "Dresden"@),
    ]
}

fn city_table_1() -> (t: Vec<(String, String)>)
    ensures
        table_view(t@) == city_names_1(),
{
    let mut t: Vec<(String, String)> = Vec::new();
    t.push(("aberdeen".to_owned(), "Aberdeen".to_owned()));
    t.push(("barcelona".to_owned(), "Barcelona".to_owned()));
    t.push(("zaragoza".to_owned(), "Zaragoza".to_owned()));
    t.push(("cordoba".to_owned(), "Córdoba".to_owned()));
    t.push(("salamanca".to_owned(), "Salamanca".to_owned()));
    t.push(("porto".to_owned(), "Porto".to_owned()));
    t.push(("coimbra".to_owned(), "Coimbra".to_owned()));
    t.push(("hamburg".to_owned(), "Hamburg".to_owned()));
    t.push(("lubeck".to_owned(), "Lübeck".to_owned()));
    t.push(("bremen".to_owned(), "Bremen".to_owned()));
    t.push(("augsburg".to_owned(), "Augsburg".to_owned()));
    t.push(("ulm".to_owned(), "Ulm".to_owned()));
    t.push(("leipzig".to_owned(), "Leipzig".to_owned()));
    t.push(("dresden".to_owned(), "Dresden".to_owned()));
    assert(table_view(t@) =~= city_names_1());
    t
}

/// Part 3 of [`city_names`].
pub open spec fn city_names_2() -> Seq<(Seq<char>, Seq<char>)> {
    seq![
        ("breslau"@, "Breslau"@),
        ("wroclaw"@, "Breslau"@),
        ("gdansk"@, "Gdańsk"@),
        ("danzig"@, "Gdańsk"@),
        ("torun"@, "Toruń"@),
        ("lublin"@, "Lublin"@),
        ("poznan"@, "Poznań"@),
        ("lviv"@, "Lviv"@),
        ("kiev"@, "Kyiv"@),
        ("kyiv"@, "Kyiv"@),
        ("pskov"@, "Pskov"@),
        ("tver"@, "Tver"@),
        ("smolensk"@, "Smolensk"@),
        ("ryazan"@, "Ryazan"@),
    ]
}

fn city_table_2() -> (t: Vec<(String, String)>)
    ensures
        table_view(t@) == city_names_2(),
{
    let mut t: Vec<(String, String)> = Vec::new();
    t.push(("breslau".to_owned(), "Breslau".to_owned()));
    t.push(("wroclaw".to_owned(), "Breslau".to_owned()));
    t.push(("gdansk".to_owned(), "Gdańsk".to_owned()));
    t.push(("danzig".to_owned(), "Gdańsk".to_owned()));
    t.push(("torun".to_owned(), "Toruń".to_owned()));
    t.push(("lublin".to_owned(), "Lublin".to_owned()));
    t.push(("poznan".to_owned(), "Poznań".to_owned()));
    t.push(("lviv".to_owned(), "Lviv".to_owned()));
    t.push(("kiev".to_owned(), "Kyiv".to_owned()));
    t.push(("kyiv".to_owned(), "Kyiv".to_owned()));
    t.push(("pskov".to_owned(), "Pskov".to_owned()));
    t.push(("tver".to_owned(), "Tver".to_owned()));
    t.push(("smolensk".to_owned(), "Smolensk".to_owned()));
    t.push(("ryazan".to_owned(), "Ryazan".to_owned()));
    assert(table_view(t@) =~= city_names_2());
    t
}

/// Part 4 of [`city_names`].
pub open spec fn city_names_3() -> Seq<(Seq<char>, Seq<char>)> {
    seq![
        ("vladimir"@, "Vladimir"@),
        ("yaroslavl"@, "Yaroslavl"@),
        ("kazan"@, "Kazan"@),
        ("astrakhan"@, "Astrakhan"@),
        ("verona"@, "Verona"@),
        ("padua"@, "Padua"@),
        ("padova"@, "Padua"@),
        ("bologna"@, "Bologna"@),
        ("pisa"@, "Pisa"@),
        ("siena"@, "Siena"@),
        ("lucca"@, "Lucca"@),
        ("palermo"@, "Palermo"@),
        ("catania"@, "Catania"@),
        ("thessaloniki"@, "Thessaloniki"@),
    ]
}

fn city_table_3() -> (t: Vec<(String, String)>)
    ensures
        table_view(t@) == city_names_3(),
{
    let mut t: Vec<(String, String)> = Vec::new();
    t.push(("vladimir".to_owned(), "Vladimir".to_owned()));
    t.push(("yaroslavl".to_owned(), "Yaroslavl".to_owned()));
    t.push(("kazan".to_owned(), "Kazan".to_owned()));
    t.push(("astrakhan".to_owned(), "Astrakhan".to_owned()));
    t.push(("verona".to_owned(), "Verona".to_owned()));
    t.push(("padua".to_owned(), "Padua".to_owned()));
    t.push(("padova".to_owned(), "Padua".to_owned()));
    t.push(("bologna".to_owned(), "Bologna".to_owned()));
    t.push(("pisa".to_owned(), "Pisa".to_owned()));
    t.push(("siena".to_owned(), "Siena".to_owned()));
    t.push(("lucca".to_owned(), "Lucca".to_owned()));
    t.push(("palermo".to_owned(), "Palermo".to_owned()));
    t.push(("catania".to_owned(), "Catania".to_owned()));
    t.push(("thessaloniki".to_owned(), "Thessaloniki".to_owned()));
    assert(table_view(t@) =~= city_names_3());
    t
}

/// Part 5 of [`city_names`].
pub open spec fn city_names_4() -> Seq<(Seq<char>, Seq<char>)> {
    seq![
        ("salonica"@, "Thessaloniki"@),
        ("adrianople"@, "Adrianople"@),
        ("edirne"@, "Adrianople"@),
        ("bursa"@, "Bursa"@),
        ("konya"@, "Konya"@),
        ("sinop"@, "Sinop"@),
        ("antioch"@, "Antioch"@),
        ("antakya"@, "Antioch"@),
        ("beirut"@, "Beirut"@),
        ("acre"@, "Acre"@),
        ("gaza"@, "Gaza"@),
        ("hama"@, "Hama"@),
        ("homs"@, "Homs"@),
        ("mosul"@, "Mosul"@),
    ]
}

fn city_table_4() -> (t: Vec<(String, String)>)
    ensures
        table_view(t@) == city_names_4(),
{
    let mut t: Vec<(String, String)> = Vec::new();
    t.push(("salonica".to_owned(), "Thessaloniki".to_owned()));
    t.push(("adrianople".to_owned(), "Adrianople".to_owned()));
    t.push(("edirne".to_owned(), "Adrianople".to_owned()));
    t.push(("bursa".to_owned(), "Bursa".to_owned()));
    t.push(("konya".to_owned(), "Konya".to_owned()));
    t.push(("sinop".to_owned(), "Sinop".to_owned()));
    t.push(("antioch".to_owned(), "Antioch".to_owned()));
    t.push(("antakya".to_owned(), "Antioch".to_owned()));
    t.push(("beirut".to_owned(), "Beirut".to_owned()));
    t.push(("acre".to_owned(), "Acre".to_owned()));
    t.push(("gaza".to_owned(), "Gaza".to_owned()));
    t.push(("hama".to_owned(), "Hama".to_owned()));
    t.push(("homs".to_owned(), "Homs".to_owned()));
    t.push(("mosul".to_owned(), "Mosul".to_owned()));
    assert(table_view(t@) =~= city_names_4());
    t
}

/// Part 6 of [`city_names`].
pub open spec fn city_names_5() -> Seq<(Seq<char>, Seq<char>)> {
    seq![
        ("yazd"@, "Yazd"@),
        ("kerman"@, "Kerman"@),
        ("hamadan"@, "Hamadan"@),
        ("nishapur"@, "Nishapur"@),
        ("merv"@, "Merv"@),
        ("khiva"@, "Khiva"@),
        ("balkh"@, "Balkh"@),
        ("kabul"@, "Kabul"@),
        ("kandahar"@, "Kandahar"@),
        ("jaipur"@, "Jaipur"@),
        ("udaipur"@, "Udaipur"@),
        ("ahmedabad"@, "Ahmedabad"@),
        ("surat"@, "Surat"@),
        ("patna"@, "Patna"@),
    ]
}

fn city_table_5() -> (t: Vec<(String, String)>)
    ensures
        table_view(t@) == city_names_5(),
{
    let mut t: Vec<(String, String)> = Vec::new();
    t.push(("yazd".to_owned(), "Yazd".to_owned()));
    t.push(("kerman".to_owned(), "Kerman".to_owned()));
    t.push(("hamadan".to_owned(), "Hamadan".to_owned()));
    t.push(("nishapur".to_owned(), "Nishapur".to_owned()));
    t.push(("merv".to_owned(), "Merv".to_owned()));
    t.push(("khiva".to_owned(), "Khiva".to_owned()));
    t.push(("balkh".to_owned(), "Balkh".to_owned()));
    t.push(("kabul".to_owned(), "Kabul".to_owned()));
    t.push(("kandahar".to_owned(), "Kandahar".to_owned()));
    t.push(("jaipur".to_owned(), "Jaipur".to_owned()));
    t.push(("udaipur".to_owned(), "Udaipur".to_owned()));
    t.push(("ahmedabad".to_owned(), "Ahmedabad".to_owned()));
    t.push(("surat".to_owned(), "Surat".to_owned()));
    t.push(("patna".to_owned(), "Patna".to_owned()));
    assert(table_view(t@) =~= city_names_5());
    t
}

/// Part 7 of [`city_names`].
pub open spec fn city_names_6() -> Seq<(Seq<char>, Seq<char>)> {
    seq![
        ("varanasi"@, "Varanasi"@),
        ("benares"@, "Varanasi"@),
        ("mumbai"@, "Mumbai"@),
        ("hyderabad"@, "Hyderabad"@),
        ("wuhan"@, "Wuhan"@),
        ("suzhou"@, "Suzhou"@),
        ("fuzhou"@, "Fuzhou"@),
        ("chongqing"@, "Chongqing"@),
        ("kaifeng"@, "Kaifeng"@),
        ("taiyuan"@, "Taiyuan"@),
        ("jinan"@, "Jinan"@),
        ("nagasaki"@, "Nagasaki"@),
        ("sakai"@, "Sakai"@),
        ("sendai"@, "Sendai"@),
    ]
}

fn city_table_6() -> (t: Vec<(String, String)>)
    ensures
        table_view(t@) == city_names_6(),
{
    let mut t: Vec<(String, String)> = Vec::new();
    t.push(("varanasi".to_owned(), "Varanasi".to_owned()));
    t.push(("benares".to_owned(), "Varanasi".to_owned()));
    t.push(("mumbai".to_owned(), "Mumbai".to_owned()));
    t.push(("hyderabad".to_owned(), "Hyderabad".to_owned()));
    t.push(("wuhan".to_owned(), "Wuhan".to_owned()));
    t.push(("suzhou".to_owned(), "Suzhou".to_owned()));
    t.push(("fuzhou".to_owned(), "Fuzhou".to_owned()));
    t.push(("chongqing".to_owned(), "Chongqing".to_owned()));
    t.push(("kaifeng".to_owned(), "Kaifeng".to_owned()));
    t.push(("taiyuan".to_owned(), "Taiyuan".to_owned()));
    t.push(("jinan".to_owned(), "Jinan".to_owned()));
    t.push(("nagasaki".to_owned(), "Nagasaki".to_owned()));
    t.push(("sakai".to_owned(), "Sakai".to_owned()));
    t.push(("sendai".to_owned(), "Sendai".to_owned()));
    assert(table_view(t@) =~= city_names_6());
    t
}

/// Part 8 of [`city_names`].
pub open spec fn city_names_7() -> Seq<(Seq<char>, Seq<char>)> {
    seq![
        ("kagoshima"@, "Kagoshima"@),
        ("kanazawa"@, "Kanazawa"@),
        ("nagoya"@, "Nagoya"@),
        ("hakata"@, "Hakata"@),
        ("fukuoka"@, "Hakata"@),
        ("inverness"@, "Inverness"@),
        ("cardiff"@, "Cardiff"@),
        ("stirling"@, "Stirling"@),
        ("galway"@, "Galway"@),
        ("cork"@, "Cork"@),
        ("limerick"@, "Limerick"@),
        ("waterford"@, "Waterford"@),
    ]
}

fn city_table_7() -> (t: Vec<(String, String)>)
    ensures
        table_view(t@) == city_names_7(),
{
    let mut t: Vec<(String, String)> = Vec::new();
    t.push(("kagoshima".to_owned(), "Kagoshima".to_owned()));
    t.push(("kanazawa".to_owned(), "Kanazawa".to_owned()));
    t.push(("nagoya".to_owned(), "Nagoya".to_owned()));
    t.push(("hakata".to_owned(), "Hakata".to_owned()));
    t.push(("fukuoka".to_owned(), "Hakata".to_owned()));
    t.push(("inverness".to_owned(), "Inverness".to_owned()));
    t.push(("cardiff".to_owned(), "Cardiff".to_owned()));
    t.push(("stirling".to_owned(), "Stirling".to_owned()));
    t.push(("galway".to_owned(), "Galway".to_owned()));
    t.push(("cork".to_owned(), "Cork".to_owned()));
    t.push(("limerick".to_owned(), "Limerick".to_owned()));
    t.push(("waterford".to_owned(), "Waterford".to_owned()));
    assert(table_view(t@) =~= city_names_7());
    t
}

/// Predefined major cities of 1450: lower-case province id and display name.
pub open spec fn city_names() -> Seq<(Seq<char>, Seq<char>)> {
    city_names_0()
        + city_names_1()
        + city_names_2()
        + city_names_3()
        + city_names_4()
        + city_names_5()
        + city_names_6()
        + city_names_7()
}

/// The table [`city_names`], as owned strings.
pub fn city_table() -> (t: Vec<(String, String)>)
    ensures
        table_view(t@) == city_names(),
{
    let mut t: Vec<(String, String)> = Vec::new();
    let mut part = city_table_0();
    let ghost before = t@;
    let ghost added = part@;
    t.append(&mut part);
    proof {
        lemma_table_view_add(before, added);
    }
    assert(table_view(t@) =~= Seq::<(Seq<char>, Seq<char>)>::empty() + city_names_0());
    let mut part = city_table_1();
    let ghost before = t@;
    let ghost added = part@;
    t.append(&mut part);
    proof {
        lemma_table_view_add(before, added);
    }
    assert(table_view(t@) =~= Seq::<(Seq<char>, Seq<char>)>::empty() + city_names_0() + city_names_1());
    let mut part = city_table_2();
    let ghost before = t@;
    let ghost added = part@;
    t.append(&mut part);
    proof {
        lemma_table_view_add(before, added);
    }
    assert(table_view(t@) =~= Seq::<(Seq<char>, Seq<char>)>::empty() + city_names_0() + city_names_1() + city_names_2());
    let mut part = city_table_3();
    let ghost before = t@;
    let ghost added = part@;
    t.append(&mut part);
    proof {
        lemma_table_view_add(before, added);
    }
    assert(table_view(t@) =~= Seq::<(Seq<char>, Seq<char>)>::empty() + city_names_0() + city_names_1() + city_names_2() + city_names_3());
    let mut part = city_table_4();
    let ghost before = t@;
    let ghost added = part@;
    t.append(&mut part);
    proof {
        lemma_table_view_add(before, added);
    }
    assert(table_view(t@) =~= Seq::<(Seq<char>, Seq<char>)>::empty() + city_names_0() + city_names_1() + city_names_2() + city_names_3() + city_names_4());
    let mut part = city_table_5();
    let ghost before = t@;
    let ghost added = part@;
    t.append(&mut part);
    proof {
        lemma_table_view_add(before, added);
    }
    assert(table_view(t@) =~= Seq::<(Seq<char>, Seq<char>)>::empty() + city_names_0() + city_names_1() + city_names_2() + city_names_3() + city_names_4() + city_names_5());
    let mut part = city_table_6();
    let ghost before = t@;
    let ghost added = part@;
    t.append(&mut part);
    proof {
        lemma_table_view_add(before, added);
    }
    assert(table_view(t@) =~= Seq::<(Seq<char>, Seq<char>)>::empty() + city_names_0() + city_names_1() + city_names_2() + city_names_3() + city_names_4() + city_names_5() + city_names_6());
    let mut part = city_table_7();
    let ghost before = t@;
    let ghost added = part@;
    t.append(&mut part);
    proof {
        lemma_table_view_add(before, added);
    }
    assert(table_view(t@) =~= Seq::<(Seq<char>, Seq<char>)>::empty() + city_names_0() + city_names_1() + city_names_2() + city_names_3() + city_names_4() + city_names_5() + city_names_6() + city_names_7());
    assert(table_view(t@) =~= city_names());
    t
}

} // verus!
