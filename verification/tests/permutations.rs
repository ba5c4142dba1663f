use schema_gen::schema::criteria::Criteria;
use schema_gen::schema::value::Value;
use schema_gen::schema::{Schema, SchemaGenerator};

struct Dice(u64);

impl Dice {
    fn roll(&mut self, sides: u64) -> u64 {
        self.0 = self.0.wrapping_mul(6364136223846793005).wrapping_add(1442695040888963407);
        (self.0 >> 33) % sides
    }
}

fn random_value(dice: &mut Dice, depth: u32) -> Value {
    let kinds = if depth == 0 { 6 } else { 8 };
    match dice.roll(kinds) {
        0 => Value::Null,
        1 => Value::Bool(dice.roll(2) == 0),
        2 => Value::Unsigned(dice.roll(100)),
        3 => Value::Signed(dice.roll(100) as i64 - 50),
        4 => Value::Float,
        5 => Value::String(["planet", "star", "moon"][dice.roll(3) as usize].to_string()),
        6 => {
            let n = dice.roll(4);
            Value::Array((0..n).map(|_| random_value(dice, depth - 1)).collect())
        }
        _ => {
            let names = ["type", "a", "b", "body", "é", "Z"];
            let n = dice.roll(5);
            Value::Object(
                (0..n)
                    .map(|_| {
                        let name = names[dice.roll(names.len() as u64) as usize].to_string();
                        (name, random_value(dice, depth - 1))
                    })
                    .collect(),
            )
        }
    }
}

fn criteria() -> Criteria {
    let mut c = Criteria::new();
    c.add("", "type");
    c.add("body", "type");
    c.add("a.body", "a");
    c
}

fn schema_of(docs: &[Value], order: &[usize]) -> Schema {
    let mut g = SchemaGenerator::new(criteria());
    for &i in order {
        g.add_value(copy(&docs[i]));
    }
    g.build()
}

fn copy(v: &Value) -> Value {
    match v {
        Value::Null => Value::Null,
        Value::Bool(b) => Value::Bool(*b),
        Value::Unsigned(n) => Value::Unsigned(*n),
        Value::Signed(n) => Value::Signed(*n),
        Value::Float => Value::Float,
        Value::String(s) => Value::String(s.clone()),
        Value::Array(items) => Value::Array(items.iter().map(copy).collect()),
        Value::Object(attrs) => {
            Value::Object(attrs.iter().map(|(k, v)| (k.clone(), copy(v))).collect())
        }
    }
}

#[test]
fn shuffled_documents_give_the_same_schema() {
    let mut dice = Dice(2024);
    for _ in 0..60 {
        let n = 1 + dice.roll(7) as usize;
        let docs: Vec<Value> = (0..n).map(|_| random_value(&mut dice, 3)).collect();
        let order: Vec<usize> = (0..n).collect();
        let expected = schema_of(&docs, &order);
        for _ in 0..4 {
            let mut shuffled = order.clone();
            for i in (1..n).rev() {
                shuffled.swap(i, dice.roll(i as u64 + 1) as usize);
            }
            let got = schema_of(&docs, &shuffled);
            assert_eq!(expected, got);
            assert_eq!(expected.print(), got.print());
        }
    }
}

#[test]
fn repeated_documents_give_the_same_schema() {
    let mut dice = Dice(7);
    for _ in 0..60 {
        let n = 1 + dice.roll(5) as usize;
        let docs: Vec<Value> = (0..n).map(|_| random_value(&mut dice, 3)).collect();
        let once: Vec<usize> = (0..n).collect();
        let mut more = once.clone();
        for _ in 0..n {
            more.push(dice.roll(n as u64) as usize);
        }
        assert_eq!(schema_of(&docs, &once), schema_of(&docs, &more));
    }
}

#[test]
fn more_documents_keep_fields_nullable() {
    let mut dice = Dice(99);
    for _ in 0..40 {
        let mut g = SchemaGenerator::new(Criteria::new());
        g.add_value(Value::Object(vec![("a".to_string(), Value::Null)]));
        for _ in 0..5 {
            g.add_value(random_value(&mut dice, 2));
        }
        let s = g.build();
        let text = s.print();
        let ok = text.contains("\"a\": Option<");
        assert!(ok, "{}", text);
    }
}
