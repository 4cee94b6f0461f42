use std::rc::Rc;
use protostar_works::exec_graph::{AnyData, Execution, Operation, Storage, Var, construct_operation_simple};

fn f(x: i32, y: i32, z: i32) -> (i32, i32, i32, i32) {
    (x + y, x - y, x + 2 * y, x)
}

/// `f` as an operation: reads three cells, writes four.
struct OpF {
    inputs: (Var<i32>, Var<i32>, Var<i32>),
    outputs: (Var<i32>, Var<i32>, Var<i32>, Var<i32>),
}

impl Operation<AnyData> for OpF {
    fn run(&self, st: &mut AnyData) {
        let x = *Storage::get(st, self.inputs.0).unwrap();
        let y = *Storage::get(st, self.inputs.1).unwrap();
        let z = *Storage::get(st, self.inputs.2).unwrap();
        let (a, b, c, d) = f(x, y, z);
        Storage::set(st, a, self.outputs.0).unwrap();
        Storage::set(st, b, self.outputs.1).unwrap();
        Storage::set(st, c, self.outputs.2).unwrap();
        Storage::set(st, d, self.outputs.3).unwrap();
    }
}

fn push_f(
    arr: &mut Execution<AnyData, OpF>,
    inputs: (Var<i32>, Var<i32>, Var<i32>),
) -> (Var<i32>, Var<i32>, Var<i32>, Var<i32>) {
    let out1 = arr.storage().allocate();
    let out2 = arr.storage().allocate();
    let out3 = arr.storage().allocate();
    let out4 = arr.storage().allocate();
    arr.op_push(OpF { inputs, outputs: (out1, out2, out3, out4) });
    (out1, out2, out3, out4)
}

#[test]
fn exec_test() {
    let mut arr = AnyData::new();
    let var = arr.allocate();
    let var2 = arr.allocate();
    let var3 = arr.allocate();
    arr.set::<i32>(2, var).unwrap();
    arr.set::<i32>(2, var2).unwrap();
    arr.set::<i32>(2, var3).unwrap();

    let mut arr = Execution { operations: vec![], storage: arr };

    let arr = &mut arr;
    let (out1, out2, _out3, _out4) = push_f(arr, (var, var2, var3));
    let (out5, _out6, _out7, _out8) = push_f(arr, (var, out1, out2));
    arr.exec(0);
    arr.exec(1);
    let val = arr.storage().get::<i32>(out5).unwrap();
    println!("{}", val);
    // out1 = 2 + 2, out2 = 2 - 2, out5 = 2 + out1
    assert_eq!(*val, 6);
}

#[test]
fn exec_graph_test() {
    let mut arr = AnyData::new();
    let var = arr.allocate();
    let var2 = arr.allocate();
    let var3 = arr.allocate();
    arr.set::<i32>(2, var).unwrap();
    arr.set::<i32>(2, var2).unwrap();
    arr.set::<i32>(2, var3).unwrap();

    let mut arr = Execution { operations: vec![], storage: arr };

    let arr = &mut arr;
    let (out1, out2, out3, out4) = push_f(arr, (var, var2, var3));
    arr.exec(0);
    let val = arr.storage().get::<i32>(out1).unwrap();
    println!("{}", val);
    assert_eq!(*val, 4);
    assert_eq!(*arr.storage().get::<i32>(out2).unwrap(), 0);
    assert_eq!(*arr.storage().get::<i32>(out3).unwrap(), 6);
    assert_eq!(*arr.storage().get::<i32>(out4).unwrap(), 2);
}

#[test]
fn cells_are_write_once() {
    let mut st = AnyData::new();
    let v: Var<u64> = st.allocate();
    assert!(st.get(v).is_none());
    assert!(st.set(5u64, v).is_ok());
    assert!(st.set(6u64, v).is_err());
    assert_eq!(*st.get(v).unwrap(), 5);
    st.replace(7u64, v);
    assert_eq!(*st.get(v).unwrap(), 7);
}

#[test]
fn simple_operation_applies_its_function() {
    let mut st = AnyData::new();
    let a: Var<i64> = st.allocate();
    let b: Var<i64> = st.allocate();
    st.set(20i64, a).unwrap();
    let op = construct_operation_simple::<i64, i64, AnyData, _>(a, b, |x: &i64| *x * 3);
    let mut ex = Execution { operations: vec![], storage: st };
    ex.op_push(op);
    ex.exec(0);
    assert_eq!(*ex.storage().get(b).unwrap(), 60);
    let _ = Rc::new(0);
}
