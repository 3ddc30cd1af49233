//! The style sheet and the graph script of the vault report page.
use vstd::prelude::*;

verus! {

/// Styles of the report page: dark theme, system fonts only.
pub const REPORT_CSS: &'static str = r#"
:root{--bg:#0a0c10;--surface:#12151c;--border:#1f2630;--text:#e8ebf1;--dim:#9aa4b4;
--muted:#626c7e;--accent:#34d399;--red:#f87171;--amber:#fbbf24;--violet:#b3a4f7;
--sans:system-ui,-apple-system,Segoe UI,Roboto,sans-serif;--mono:ui-monospace,SFMono-Regular,Menlo,monospace;}
*{box-sizing:border-box;margin:0;padding:0}
body{background:var(--bg);color:var(--text);font-family:var(--sans);line-height:1.6;padding:0 0 64px}
.top{display:flex;align-items:center;justify-content:space-between;padding:18px 28px;border-bottom:1px solid var(--border);position:sticky;top:0;background:rgba(10,12,16,.85);backdrop-filter:blur(8px);z-index:5}
.brand{font-weight:700;font-size:19px;display:flex;align-items:center;gap:9px}
.brand .dot{width:9px;height:9px;border-radius:50%;background:var(--accent);box-shadow:0 0 10px rgba(52,211,153,.7)}
.brand .sub{color:var(--muted);font-weight:500;font-size:14px}
.vault{font-family:var(--mono);font-size:12.5px;color:var(--muted)}
.stats{display:flex;flex-wrap:wrap;gap:12px;padding:24px 28px}
.stat{background:var(--surface);border:1px solid var(--border);border-radius:12px;padding:14px 20px;min-width:108px}
.stat b{display:block;font-size:26px;font-family:var(--mono)}
.stat span{color:var(--dim);font-size:13px}
.stat.bad b{color:var(--red)}.stat.warn b{color:var(--amber)}.stat.violet b{color:var(--violet)}
section{padding:14px 28px 8px}
h2{font-size:17px;margin-bottom:12px;font-weight:600;letter-spacing:-.01em}
.empty,.note{color:var(--muted);font-size:14px}.note{margin-bottom:10px}
code{font-family:var(--mono);background:var(--surface);padding:1px 6px;border-radius:6px;font-size:13px}
.graph-wrap{position:relative;border:1px solid var(--border);border-radius:14px;overflow:hidden;background:#0c0f15}
#graph-canvas{display:block;width:100%;height:520px}
.detail{position:absolute;top:12px;right:12px;max-width:300px;background:var(--surface);border:1px solid var(--border);border-radius:10px;padding:12px 14px;font-size:13px}
.detail.hidden{display:none}
.detail .t{font-family:var(--mono);color:var(--accent);font-size:12px;margin-bottom:4px}
.detail .r{color:var(--dim);font-size:12px}
.legend{display:flex;flex-wrap:wrap;gap:8px 16px;padding:12px 2px;font-size:12.5px;color:var(--dim)}
.lg{display:inline-flex;align-items:center;gap:6px}
.lg::before{content:"";width:10px;height:10px;border-radius:50%}
.lg.normal::before{background:var(--accent)}.lg.contradicted::before{background:var(--red)}
.lg.superseded::before{background:var(--amber)}.lg.stale::before{background:var(--violet)}
.lg.edge-derives::before{border-radius:0;width:14px;height:2px;background:var(--muted)}
.lg.edge-contradicts::before{border-radius:0;width:14px;height:2px;background:var(--red)}
.row{border:1px solid var(--border);border-radius:10px;padding:11px 14px;margin-bottom:8px;background:var(--surface)}
.row .subj{font-weight:600;margin-bottom:3px}
.pair{font-family:var(--mono);font-size:13px}
.pair .bad{color:var(--red);text-decoration:line-through}
.pair .ok{color:var(--accent)}.pair .arrow{color:var(--muted)}
.row .meta{color:var(--muted);font-family:var(--mono);font-size:12px;margin-top:3px}
.row .reason{color:var(--dim);font-size:13px;margin-top:2px}
pre.worldmap{background:var(--surface);border:1px solid var(--border);border-radius:12px;padding:16px;overflow:auto;font-family:var(--mono);font-size:13px;color:var(--dim);white-space:pre-wrap;max-height:520px}
footer{color:var(--muted);font-size:12.5px;padding:24px 28px;border-top:1px solid var(--border);margin-top:24px}
"#;

/// Script of the report page: reads the embedded graph data and draws the
/// claim graph on a canvas with a small force layout; no network access.
pub const REPORT_JS: &'static str = r#"
(function(){
  var el=document.getElementById('graph-data');
  if(!el)return;
  var data=JSON.parse(el.textContent);
  var nodes=data.nodes||[], edges=data.edges||[];
  if(!nodes.length)return;
  var canvas=document.getElementById('graph-canvas');
  var ctx=canvas.getContext('2d');
  var detail=document.getElementById('detail');
  var colors={normal:'#34d399',contradicted:'#f87171',superseded:'#fbbf24',stale:'#b3a4f7'};
  function esc(s){return String(s==null?'':s).replace(/[<>&"]/g,function(c){return {'<':'&lt;','>':'&gt;','&':'&amp;','"':'&quot;'}[c];});}
  var byId={};
  function size(){
    var r=canvas.getBoundingClientRect();
    var dpr=window.devicePixelRatio||1;
    canvas.width=r.width*dpr; canvas.height=r.height*dpr;
    ctx.setTransform(dpr,0,0,dpr,0,0);
    return {w:r.width,h:r.height};
  }
  var dim={w:0,h:0};
  nodes.forEach(function(n){ byId[n.id]=n; });
  var links=edges.map(function(e){return {s:byId[e.source],t:byId[e.target],rel:e.rel};})
                 .filter(function(l){return l.s&&l.t;});
  function place(){
    nodes.forEach(function(n,i){
      var a=2*Math.PI*i/nodes.length;
      n.x=dim.w/2+Math.cos(a)*Math.min(dim.w,dim.h)*0.32;
      n.y=dim.h/2+Math.sin(a)*Math.min(dim.w,dim.h)*0.32;
    });
  }
  // force simulation with cooling
  var temp=1.0, ticks=0, MAX=320;
  function step(){
    var k=Math.sqrt((dim.w*dim.h)/Math.max(nodes.length,1))*0.55;
    for(var i=0;i<nodes.length;i++){
      var a=nodes[i]; a.fx=0; a.fy=0;
      for(var j=0;j<nodes.length;j++){
        if(i===j)continue;
        var b=nodes[j], dx=a.x-b.x, dy=a.y-b.y, d=Math.sqrt(dx*dx+dy*dy)||0.01;
        var rep=(k*k)/d; a.fx+=(dx/d)*rep; a.fy+=(dy/d)*rep;
      }
      // gravity to center
      a.fx+=(dim.w/2-a.x)*0.02; a.fy+=(dim.h/2-a.y)*0.02;
    }
    links.forEach(function(l){
      var dx=l.t.x-l.s.x, dy=l.t.y-l.s.y, d=Math.sqrt(dx*dx+dy*dy)||0.01;
      var att=(d*d)/k*0.5/d;
      l.s.fx+=dx*att*0.5; l.s.fy+=dy*att*0.5;
      l.t.fx-=dx*att*0.5; l.t.fy-=dy*att*0.5;
    });
    nodes.forEach(function(n){
      n.x+=Math.max(-12,Math.min(12,n.fx*temp));
      n.y+=Math.max(-12,Math.min(12,n.fy*temp));
      n.x=Math.max(14,Math.min(dim.w-14,n.x));
      n.y=Math.max(14,Math.min(dim.h-14,n.y));
    });
    temp*=0.985; ticks++;
  }
  function draw(){
    ctx.clearRect(0,0,dim.w,dim.h);
    links.forEach(function(l){
      ctx.beginPath(); ctx.moveTo(l.s.x,l.s.y); ctx.lineTo(l.t.x,l.t.y);
      ctx.strokeStyle=l.rel==='contradicts'?'rgba(248,113,113,.55)':'rgba(98,108,126,.35)';
      ctx.lineWidth=l.rel==='contradicts'?1.6:1; ctx.stroke();
    });
    nodes.forEach(function(n){
      ctx.beginPath(); ctx.arc(n.x,n.y,5,0,2*Math.PI);
      ctx.fillStyle=colors[n.kind]||colors.normal; ctx.fill();
    });
  }
  function loop(){ if(ticks<MAX){ step(); draw(); requestAnimationFrame(loop);} else { draw(); } }
  // Start only once the canvas has a real layout size. End-of-body scripts can
  // run before the first layout pass, which would otherwise leave the graph
  // blank. A ResizeObserver is the reliable signal; rAF + window resize are
  // fallbacks. Once started, later size changes just resize and redraw.
  var started=false;
  function tryStart(){
    if(started) return;
    dim=size();
    if(dim.w && dim.h){ started=true; place(); temp=1.0; ticks=0; loop(); }
  }
  if(typeof ResizeObserver!=='undefined'){
    new ResizeObserver(function(){ if(!started){ tryStart(); } else { dim=size(); draw(); } }).observe(canvas);
  }
  tryStart();
  (function poll(){ if(started) return; tryStart(); if(!started) requestAnimationFrame(poll); })();
  function pick(mx,my){
    var best=null,bd=14;
    nodes.forEach(function(n){var d=Math.hypot(n.x-mx,n.y-my); if(d<bd){bd=d;best=n;}});
    return best;
  }
  canvas.addEventListener('click',function(ev){
    var r=canvas.getBoundingClientRect();
    var n=pick(ev.clientX-r.left, ev.clientY-r.top);
    if(n){
      detail.innerHTML='<div class="t">'+esc(n.id.slice(0,16))+'</div><div>'+
        esc(n.label)+'</div><div class="r">'+esc(n.region)+' · '+esc(n.kind)+'</div>';
      detail.classList.remove('hidden');
    } else { detail.classList.add('hidden'); }
  });
  window.addEventListener('resize',function(){ if(!started){ tryStart(); return; } dim=size(); draw(); });
})();
"#;

} // verus!
